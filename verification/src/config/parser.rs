//! Reading configuration nodes: their positional value, the `pull` node,
//! and whether a field holds an expression.

use vstd::prelude::*;
use core::time::Duration;
use crate::config::primitives::{duration_of_millis, output_named, parse_interval, spec_interval_ms};
use crate::config::primitives::{
    parse_anchor, parse_col_align, parse_color, parse_layer, parse_output, parse_row_align, parse_align_x,
    parse_align_y, spec_align_x, spec_align_y, spec_col_align, spec_parse_anchor, spec_parse_layer, spec_row_align,
    AnchorError,
};
use crate::config::resolver::coerce::spec_color;
use crate::config::types::{AlignX, AlignY, Anchor, ColAlign, Color, FieldValue, Layer, Output, RowAlign};
use crate::config::ConfigErrorKind;
use crate::number::{decimal_u128, decimal_of};
use crate::text::{chars_of, owned, push_str, str_eq};

verus! {

/// A value written in a configuration node. Decimal numbers are only
/// told apart here, not held.
pub enum KdlScalar {
    Integer(i128),
    Float,
    Bool(bool),
    String(String),
    Null,
}

/// A property or an argument of a configuration node: its name, if it has
/// one, and its value.
pub struct Entry {
    pub name: Option<String>,
    pub value: KdlScalar,
}

/// The text of a value that is a string.
pub open spec fn as_string(v: KdlScalar) -> Option<Seq<char>> {
    match v {
        KdlScalar::String(s) => Some(s@),
        _ => None,
    }
}

fn string_of(v: &KdlScalar) -> (r: Option<&String>)
    ensures
        match as_string(*v) {
            Some(t) => r matches Some(x) && x@ == t,
            None => r is None,
        },
{
    match v {
        KdlScalar::String(s) => Some(s),
        _ => None,
    }
}

/// A command whose output a variable holds, refreshed every `interval`.
pub struct PullDecl {
    pub command: String,
    pub interval: Duration,
    pub default: String,
}

/// What reading the properties of a `pull` node has found so far.
pub enum PullScan {
    Failed(Seq<char>),
    Going { interval: Option<Seq<char>>, default: Seq<char>, target: Option<(Seq<char>, Seq<char>)>, names: nat },
}

/// Reads the named properties in order: `i`/`interval` and `default` must
/// be strings; any other name is the variable, with its command as value.
pub open spec fn scan_pull(es: Seq<Entry>) -> PullScan
    decreases es.len(),
{
    if es.len() == 0 {
        PullScan::Going { interval: None, default: seq![], target: None, names: 0 }
    } else {
        let before = scan_pull(es.drop_last());
        let e = es.last();
        match before {
            PullScan::Failed(m) => PullScan::Failed(m),
            PullScan::Going { interval, default, target, names } => match e.name {
                None => before,
                Some(key) => if key@ == "i"@ || key@ == "interval"@ {
                    match as_string(e.value) {
                        Some(t) => PullScan::Going { interval: Some(t), default, target, names },
                        None => PullScan::Failed("pull interval must be a string"@),
                    }
                } else if key@ == "default"@ {
                    match as_string(e.value) {
                        Some(t) => PullScan::Going { interval, default: t, target, names },
                        None => PullScan::Failed("pull default must be a string"@),
                    }
                } else {
                    match as_string(e.value) {
                        Some(t) => PullScan::Going { interval, default, target: Some((key@, t)), names: names + 1 },
                        None => PullScan::Failed("pull command must be a string"@),
                    }
                },
            },
        }
    }
}

/// A `pull` node: the variable it names and its command, interval and
/// default; or the message saying what is wrong with it.
pub open spec fn spec_build_pull(es: Seq<Entry>) -> Result<(Seq<char>, Seq<char>, u64, Seq<char>), Seq<char>> {
    match scan_pull(es) {
        PullScan::Failed(m) => Err(m),
        PullScan::Going { interval, default, target, names } => match target {
            Some((name, command)) => if names != 1 {
                Err("a pull must name exactly one variable"@)
            } else {
                match interval {
                    None => Err("pull requires an interval (i= or interval=)"@),
                    Some(s) => match spec_interval_ms(s) {
                        None => Err("invalid interval \""@ + s + "\""@),
                        Some(ms) => Ok((name, command, ms, default)),
                    },
                }
            },
            None => Err("a pull must name exactly one variable"@),
        },
    }
}

proof fn lemma_scan_target(es: Seq<Entry>)
    ensures
        scan_pull(es) matches PullScan::Going { target, names, .. } ==> (names >= 1 <==> target is Some),
    decreases es.len(),
{
    if es.len() > 0 {
        lemma_scan_target(es.drop_last());
    }
}

/// Reads a `pull` node from its properties.
pub fn build_pull(entries: &[Entry]) -> (r: Result<(String, PullDecl), String>)
    ensures
        match spec_build_pull(entries@) {
            Ok((name, command, ms, default)) => r matches Ok((n, d)) && n@ == name && d.command@ == command
                && d.interval == duration_of_millis(ms) && d.default@ == default,
            Err(m) => r matches Err(x) && x@ == m,
        },
{
    let ghost es = entries@;
    let mut interval: Option<String> = None;
    let mut default = String::new();
    let mut target: Option<(String, String)> = None;
    let mut names: usize = 0;
    let mut i: usize = 0;
    while i < entries.len()
        invariant
            es == entries@,
            i <= es.len(),
            names <= i,
            scan_pull(es.take(i as int)) == (PullScan::Going {
                interval: match interval { Some(s) => Some(s@), None => None },
                default: default@,
                target: match target { Some((a, b)) => Some((a@, b@)), None => None },
                names: names as nat,
            }),
        decreases es.len() - i,
    {
        proof {
            assert(es.take(i + 1).drop_last() =~= es.take(i as int));
            assert(es.take(i + 1).last() == es[i as int]);
        }
        let e = &entries[i];
        match &e.name {
            None => {},
            Some(key) => {
                if str_eq(key.as_str(), "i") || str_eq(key.as_str(), "interval") {
                    match string_of(&e.value) {
                        Some(t) => interval = Some(t.clone()),
                        None => {
                            proof { lemma_failed_sticks(es, i as int + 1); }
                            return Err(owned("pull interval must be a string"));
                        },
                    }
                } else if str_eq(key.as_str(), "default") {
                    match string_of(&e.value) {
                        Some(t) => default = t.clone(),
                        None => {
                            proof { lemma_failed_sticks(es, i as int + 1); }
                            return Err(owned("pull default must be a string"));
                        },
                    }
                } else {
                    names = names + 1;
                    match string_of(&e.value) {
                        Some(t) => target = Some((key.clone(), t.clone())),
                        None => {
                            proof { lemma_failed_sticks(es, i as int + 1); }
                            return Err(owned("pull command must be a string"));
                        },
                    }
                }
            },
        }
        i = i + 1;
    }
    proof {
        assert(es.take(i as int) =~= es);
        lemma_scan_target(es);
    }
    if names != 1 {
        return Err(owned("a pull must name exactly one variable"));
    }
    let (name, command) = match target {
        Some(t) => t,
        None => return Err(owned("a pull must name exactly one variable")),
    };
    let s = match interval {
        Some(s) => s,
        None => return Err(owned("pull requires an interval (i= or interval=)")),
    };
    match parse_interval(s.as_str()) {
        Some(d) => Ok((name, PullDecl { command, interval: d, default })),
        None => {
            let mut m = owned("invalid interval \"");
            push_str(&mut m, s.as_str());
            push_str(&mut m, "\"");
            Err(m)
        },
    }
}

/// Once reading fails, the rest of the properties change nothing.
proof fn lemma_failed_sticks(es: Seq<Entry>, n: int)
    requires
        0 < n <= es.len(),
        scan_pull(es.take(n)) is Failed,
    ensures
        scan_pull(es) == scan_pull(es.take(n)),
    decreases es.len() - n,
{
    if n < es.len() {
        assert(es.take(n + 1).drop_last() =~= es.take(n));
        lemma_failed_sticks(es, n + 1);
    } else {
        assert(es.take(n) =~= es);
    }
}


/// Whether `s` holds a `${`.
pub open spec fn has_block(s: Seq<char>) -> bool {
    exists|i: int| 0 <= i && i + 1 < s.len() && #[trigger] s[i] == '$' && s[i + 1] == '{'
}

/// Whether a field's text is an expression to evaluate: it holds `${`.
pub fn looks_like_expr(s: &str) -> (r: bool)
    ensures
        r == has_block(s@),
{
    let cs = chars_of(s);
    let n = cs.len();
    let mut i: usize = 0;
    while i < n && i + 1 < n
        invariant
            cs@ == s@,
            n == cs@.len(),
            forall|k: int| 0 <= k < i && k + 1 < n ==> !(#[trigger] cs@[k] == '$' && cs@[k + 1] == '{'),
        decreases n - i,
    {
        if cs[i] == '$' && cs[i + 1] == '{' {
            return true;
        }
        i = i + 1;
    }
    false
}

/// The string value of the first property without a name.
pub open spec fn spec_first_positional(es: Seq<Entry>) -> Option<Seq<char>>
    decreases es.len(),
{
    if es.len() == 0 {
        None
    } else if es[0].name is None {
        as_string(es[0].value)
    } else {
        spec_first_positional(es.drop_first())
    }
}

pub fn first_positional_string(entries: &[Entry]) -> (r: Option<String>)
    ensures
        match spec_first_positional(entries@) {
            Some(t) => r matches Some(x) && x@ == t,
            None => r is None,
        },
{
    let ghost es = entries@;
    let mut i: usize = 0;
    proof {
        assert(es.skip(0) =~= es);
    }
    while i < entries.len()
        invariant
            es == entries@,
            i <= es.len(),
            spec_first_positional(es) == spec_first_positional(es.skip(i as int)),
        decreases es.len() - i,
    {
        proof {
            assert(es.skip(i as int)[0] == es[i as int]);
            assert(es.skip(i as int).drop_first() =~= es.skip(i + 1));
        }
        match &entries[i].name {
            None => {
                return match string_of(&entries[i].value) {
                    Some(t) => Some(t.clone()),
                    None => None,
                };
            },
            Some(_) => {},
        }
        i = i + 1;
    }
    proof {
        assert(es.skip(i as int) =~= Seq::<Entry>::empty());
    }
    None
}

/// The warning about an element id defined twice: `kind id is defined
/// twice, using first`.
pub fn duplicate_message(id: &str, kind: &str) -> (r: String)
    ensures
        r@ == kind@ + " "@ + id@ + " is defined twice, using first"@,
{
    let mut m = owned(kind);
    push_str(&mut m, " ");
    push_str(&mut m, id);
    push_str(&mut m, " is defined twice, using first");
    m
}


// ------------------------------------------------------------ fields

/// What reading one field of a node gives: nothing when the node does not
/// set it; its value (a literal or an expression); or an error about the
/// entry at position `at`.
pub enum FieldRead<T> {
    Absent,
    Read(FieldValue<T>),
    Invalid { kind: ConfigErrorKind, message: String, at: usize },
}

/// The position of the first property named `name`.
pub open spec fn prop_index(es: Seq<Entry>, name: Seq<char>, from: int) -> Option<int>
    decreases es.len() - from,
{
    if from < 0 || from >= es.len() {
        None
    } else if es[from].name matches Some(n) && n@ == name {
        Some(from)
    } else {
        prop_index(es, name, from + 1)
    }
}

/// The first property named `name`.
pub(crate) fn prop(es: &[Entry], name: &str) -> (r: Option<usize>)
    ensures
        match prop_index(es@, name@, 0) {
            Some(k) => r matches Some(x) && x == k && 0 <= k < es@.len(),
            None => r is None,
        },
{
    let mut i: usize = 0;
    while i < es.len()
        invariant
            i <= es@.len(),
            prop_index(es@, name@, 0) == prop_index(es@, name@, i as int),
        decreases es@.len() - i,
    {
        match &es[i].name {
            Some(n) => if str_eq(n.as_str(), name) {
                return Some(i);
            },
            None => {},
        }
        i = i + 1;
    }
    None
}

/// The read is an error of kind `kind` with `message` at entry `at`.
pub open spec fn invalid_at<T>(r: FieldRead<T>, kind: ConfigErrorKind, message: Seq<char>, at: int) -> bool {
    r matches FieldRead::Invalid { kind: k, message: m, at: a } && k == kind && m@ == message && a == at
}

/// The read is the expression `text`.
pub open spec fn expr_read<T>(r: FieldRead<T>, text: Seq<char>) -> bool {
    r matches FieldRead::Read(FieldValue::Expr(e)) && e@ == text
}

fn invalid<T>(kind: ConfigErrorKind, message: &str, at: usize) -> (r: FieldRead<T>)
    ensures
        invalid_at(r, kind, message@, at as int),
{
    FieldRead::Invalid { kind, message: owned(message), at }
}

fn expr<T>(text: &String) -> (r: FieldRead<T>)
    ensures
        expr_read(r, text@),
{
    FieldRead::Read(FieldValue::Expr(text.clone()))
}

pub open spec fn bool_message() -> Seq<char> {
    "invalid bool, expected #true or #false"@
}

/// A boolean field: `#true`/`#false`, or an expression.
pub fn field_bool(name: &str, es: &[Entry]) -> (r: FieldRead<bool>)
    ensures
        match prop_index(es@, name@, 0) {
            None => r is Absent,
            Some(k) => match es@[k].value {
                KdlScalar::Bool(b) => r matches FieldRead::Read(FieldValue::Literal(x)) && x == b,
                KdlScalar::String(t) => if has_block(t@) { expr_read(r, t@) } else {
                    invalid_at(r, ConfigErrorKind::InvalidBool, bool_message(), k)
                },
                _ => invalid_at(r, ConfigErrorKind::InvalidBool, bool_message(), k),
            },
        },
{
    let k = match prop(es, name) {
        Some(k) => k,
        None => return FieldRead::Absent,
    };
    match &es[k].value {
        KdlScalar::Bool(b) => FieldRead::Read(FieldValue::Literal(*b)),
        KdlScalar::String(t) => if looks_like_expr(t.as_str()) {
            expr(t)
        } else {
            invalid(ConfigErrorKind::InvalidBool, "invalid bool, expected #true or #false", k)
        },
        _ => invalid(ConfigErrorKind::InvalidBool, "invalid bool, expected #true or #false", k),
    }
}

pub open spec fn zeros(n: nat) -> Seq<char>
    decreases n,
{
    if n == 0 { seq![] } else { zeros((n - 1) as nat).push('0') }
}

/// `d` left-padded with zeros to `w` characters.
pub open spec fn padded(d: Seq<char>, w: nat) -> Seq<char> {
    if d.len() < w { zeros((w - d.len()) as nat) + d } else { d }
}

/// An integer written with at least six characters, zero-padded after the
/// sign (`{:06}`).
pub open spec fn six_wide(i: int) -> Seq<char> {
    if i < 0 { "-"@ + padded(decimal_of((-i) as nat), 5) } else { padded(decimal_of(i as nat), 6) }
}

fn pad_zeros(d: String, w: usize) -> (r: String)
    ensures
        r@ == padded(d@, w as nat),
{
    let cs = chars_of(d.as_str());
    if cs.len() >= w {
        return d;
    }
    let mut out = String::new();
    let mut k: usize = 0;
    let need = w - cs.len();
    while k < need
        invariant
            k <= need,
            out@ == zeros(k as nat),
        decreases need - k,
    {
        push_str(&mut out, "0");
        proof {
            reveal_strlit("0");
        }
        k = k + 1;
    }
    push_str(&mut out, d.as_str());
    out
}

/// `i` as `format!("{:06}", i)` writes it.
pub fn six_wide_text(i: i128) -> (r: String)
    ensures
        r@ == six_wide(i as int),
{
    if i < 0 {
        let magnitude: u128 = if i == i128::MIN {
            0x8000_0000_0000_0000_0000_0000_0000_0000u128
        } else {
            (-i) as u128
        };
        let mut out = owned("-");
        let p = pad_zeros(decimal_u128(magnitude), 5);
        push_str(&mut out, p.as_str());
        out
    } else {
        pad_zeros(decimal_u128(i as u128), 6)
    }
}

pub open spec fn color_message() -> Seq<char> {
    "invalid color format, expected rrggbb, rrggbbaa, #rrggbb, #rrggbbaa, transparent, or int"@
}

/// The text a color field is read from: a string, or an integer written
/// six wide.
pub open spec fn color_text(v: KdlScalar) -> Option<Seq<char>> {
    match v {
        KdlScalar::String(s) => Some(s@),
        KdlScalar::Integer(i) => Some(six_wide(i as int)),
        _ => None,
    }
}

/// A color field: hex digits, `transparent`, an integer (as six digits),
/// or an expression.
pub fn field_color(name: &str, es: &[Entry]) -> (r: FieldRead<Color>)
    ensures
        match prop_index(es@, name@, 0) {
            None => r is Absent,
            Some(k) => match color_text(es@[k].value) {
                None => invalid_at(r, ConfigErrorKind::InvalidColor, color_message(), k),
                Some(t) => if has_block(t) { expr_read(r, t) } else {
                    match spec_color(t) {
                        Some(c) => r matches FieldRead::Read(FieldValue::Literal(x)) && x == c,
                        None => invalid_at(r, ConfigErrorKind::InvalidColor, color_message(), k),
                    }
                },
            },
        },
{
    let msg = "invalid color format, expected rrggbb, rrggbbaa, #rrggbb, #rrggbbaa, transparent, or int";
    let k = match prop(es, name) {
        Some(k) => k,
        None => return FieldRead::Absent,
    };
    let text = match &es[k].value {
        KdlScalar::String(t) => t.clone(),
        KdlScalar::Integer(i) => six_wide_text(*i),
        _ => return invalid(ConfigErrorKind::InvalidColor, msg, k),
    };
    if looks_like_expr(text.as_str()) {
        return expr(&text);
    }
    match parse_color(text.as_str()) {
        Some(c) => FieldRead::Read(FieldValue::Literal(c)),
        None => invalid(ConfigErrorKind::InvalidColor, msg, k),
    }
}

/// A field naming another element, or a string field: a string (an
/// expression when it holds `${`); anything else is refused with
/// `message`.
pub open spec fn text_field_ok(es: Seq<Entry>, name: Seq<char>, message: Seq<char>, r: FieldRead<String>) -> bool {
    match prop_index(es, name, 0) {
        None => r is Absent,
        Some(k) => match es[k].value {
            KdlScalar::String(t) => if has_block(t@) { expr_read(r, t@) } else {
                r matches FieldRead::Read(FieldValue::Literal(x)) && x@ == t@
            },
            _ => invalid_at(r, ConfigErrorKind::InvalidFieldType, message, k),
        },
    }
}

fn text_field(name: &str, es: &[Entry], message: &String) -> (r: FieldRead<String>)
    ensures
        text_field_ok(es@, name@, message@, r),
{
    let k = match prop(es, name) {
        Some(k) => k,
        None => return FieldRead::Absent,
    };
    match &es[k].value {
        KdlScalar::String(t) => if looks_like_expr(t.as_str()) {
            expr(t)
        } else {
            FieldRead::Read(FieldValue::Literal(t.clone()))
        },
        _ => FieldRead::Invalid { kind: ConfigErrorKind::InvalidFieldType, message: message.clone(), at: k },
    }
}

/// A field holding the id of another element.
pub fn field_id_ref(name: &str, es: &[Entry]) -> (r: FieldRead<String>)
    ensures
        text_field_ok(es@, name@, "field `"@ + name@ + "` expects an id (string)"@, r),
{
    let mut m = owned("field `");
    push_str(&mut m, name);
    push_str(&mut m, "` expects an id (string)");
    text_field(name, es, &m)
}

/// A string field.
pub fn field_string(name: &str, es: &[Entry]) -> (r: FieldRead<String>)
    ensures
        text_field_ok(es@, name@, "field `"@ + name@ + "` expects a string"@, r),
{
    let mut m = owned("field `");
    push_str(&mut m, name);
    push_str(&mut m, "` expects a string");
    text_field(name, es, &m)
}

/// The layer field: `top`, `bottom`, `background`, `overlay`, or an
/// expression.
pub fn field_layer(name: &str, es: &[Entry]) -> (r: FieldRead<Layer>)
    ensures
        match prop_index(es@, name@, 0) {
            None => r is Absent,
            Some(k) => match es@[k].value {
                KdlScalar::String(t) => if has_block(t@) { expr_read(r, t@) } else {
                    match spec_parse_layer(t@) {
                        Some(l) => r matches FieldRead::Read(FieldValue::Literal(x)) && x == l,
                        None => invalid_at(r, ConfigErrorKind::InvalidEnumValue,
                            "invalid layer value \""@ + t@ + "\", expected one of: top, bottom, background, overlay"@, k),
                    }
                },
                _ => invalid_at(r, ConfigErrorKind::InvalidEnumValue,
                    "invalid layer value, expected one of: top, bottom, background, overlay"@, k),
            },
        },
{
    let k = match prop(es, name) {
        Some(k) => k,
        None => return FieldRead::Absent,
    };
    match &es[k].value {
        KdlScalar::String(t) => if looks_like_expr(t.as_str()) {
            expr(t)
        } else {
            match parse_layer(t.as_str()) {
                Some(l) => FieldRead::Read(FieldValue::Literal(l)),
                None => {
                    let mut m = owned("invalid layer value \"");
                    push_str(&mut m, t.as_str());
                    push_str(&mut m, "\", expected one of: top, bottom, background, overlay");
                    FieldRead::Invalid { kind: ConfigErrorKind::InvalidEnumValue, message: m, at: k }
                },
            }
        },
        _ => invalid(ConfigErrorKind::InvalidEnumValue,
            "invalid layer value, expected one of: top, bottom, background, overlay", k),
    }
}

/// The anchor field: edges joined by `|`, or an expression.
pub fn field_anchor(name: &str, es: &[Entry]) -> (r: FieldRead<Anchor>)
    ensures
        match prop_index(es@, name@, 0) {
            None => r is Absent,
            Some(k) => match es@[k].value {
                KdlScalar::String(t) => if has_block(t@) { expr_read(r, t@) } else {
                    match spec_parse_anchor(t@) {
                        Ok(a) => r matches FieldRead::Read(FieldValue::Literal(x)) && x == a,
                        Err(tok) => invalid_at(r, ConfigErrorKind::InvalidEnumValue,
                            "invalid anchor token \""@ + tok + "\""@, k),
                    }
                },
                _ => invalid_at(r, ConfigErrorKind::InvalidEnumValue, "anchor must be a string"@, k),
            },
        },
{
    let k = match prop(es, name) {
        Some(k) => k,
        None => return FieldRead::Absent,
    };
    match &es[k].value {
        KdlScalar::String(t) => if looks_like_expr(t.as_str()) {
            expr(t)
        } else {
            match parse_anchor(t.as_str()) {
                Ok(a) => FieldRead::Read(FieldValue::Literal(a)),
                Err(AnchorError::Unknown(tok)) => {
                    let mut m = owned("invalid anchor token \"");
                    push_str(&mut m, tok.as_str());
                    push_str(&mut m, "\"");
                    FieldRead::Invalid { kind: ConfigErrorKind::InvalidEnumValue, message: m, at: k }
                },
            }
        },
        _ => invalid(ConfigErrorKind::InvalidEnumValue, "anchor must be a string", k),
    }
}

/// The output field: `last`, `active`, a monitor name, or an expression.
pub fn field_output(name: &str, es: &[Entry]) -> (r: FieldRead<Output>)
    ensures
        match prop_index(es@, name@, 0) {
            None => r is Absent,
            Some(k) => match es@[k].value {
                KdlScalar::String(t) => if has_block(t@) { expr_read(r, t@) } else {
                    r matches FieldRead::Read(FieldValue::Literal(o)) && output_named(o, t@)
                },
                _ => invalid_at(r, ConfigErrorKind::InvalidEnumValue,
                    "invalid output value, expected a string or `last`"@, k),
            },
        },
{
    let k = match prop(es, name) {
        Some(k) => k,
        None => return FieldRead::Absent,
    };
    match &es[k].value {
        KdlScalar::String(t) => if looks_like_expr(t.as_str()) {
            expr(t)
        } else {
            FieldRead::Read(FieldValue::Literal(parse_output(t.as_str())))
        },
        _ => invalid(ConfigErrorKind::InvalidEnumValue, "invalid output value, expected a string or `last`", k),
    }
}

pub open spec fn align_x_message() -> Seq<char> {
    "invalid align_x value, expected one of: l, c, r, left, center, right"@
}

pub open spec fn align_y_message() -> Seq<char> {
    "invalid align_y value, expected one of: t, c, b, top, center, bottom"@
}

/// The horizontal alignment field.
pub fn field_align_x(name: &str, es: &[Entry]) -> (r: FieldRead<AlignX>)
    ensures
        match prop_index(es@, name@, 0) {
            None => r is Absent,
            Some(k) => match es@[k].value {
                KdlScalar::String(t) => if has_block(t@) { expr_read(r, t@) } else {
                    match spec_align_x(t@) {
                        Some(a) => r matches FieldRead::Read(FieldValue::Literal(x)) && x == a,
                        None => invalid_at(r, ConfigErrorKind::InvalidEnumValue, align_x_message(), k),
                    }
                },
                _ => invalid_at(r, ConfigErrorKind::InvalidEnumValue, align_x_message(), k),
            },
        },
{
    let msg = "invalid align_x value, expected one of: l, c, r, left, center, right";
    let k = match prop(es, name) {
        Some(k) => k,
        None => return FieldRead::Absent,
    };
    match &es[k].value {
        KdlScalar::String(t) => if looks_like_expr(t.as_str()) {
            expr(t)
        } else {
            match parse_align_x(t.as_str()) {
                Some(a) => FieldRead::Read(FieldValue::Literal(a)),
                None => invalid(ConfigErrorKind::InvalidEnumValue, msg, k),
            }
        },
        _ => invalid(ConfigErrorKind::InvalidEnumValue, msg, k),
    }
}

/// The vertical alignment field.
pub fn field_align_y(name: &str, es: &[Entry]) -> (r: FieldRead<AlignY>)
    ensures
        match prop_index(es@, name@, 0) {
            None => r is Absent,
            Some(k) => match es@[k].value {
                KdlScalar::String(t) => if has_block(t@) { expr_read(r, t@) } else {
                    match spec_align_y(t@) {
                        Some(a) => r matches FieldRead::Read(FieldValue::Literal(x)) && x == a,
                        None => invalid_at(r, ConfigErrorKind::InvalidEnumValue, align_y_message(), k),
                    }
                },
                _ => invalid_at(r, ConfigErrorKind::InvalidEnumValue, align_y_message(), k),
            },
        },
{
    let msg = "invalid align_y value, expected one of: t, c, b, top, center, bottom";
    let k = match prop(es, name) {
        Some(k) => k,
        None => return FieldRead::Absent,
    };
    match &es[k].value {
        KdlScalar::String(t) => if looks_like_expr(t.as_str()) {
            expr(t)
        } else {
            match parse_align_y(t.as_str()) {
                Some(a) => FieldRead::Read(FieldValue::Literal(a)),
                None => invalid(ConfigErrorKind::InvalidEnumValue, msg, k),
            }
        },
        _ => invalid(ConfigErrorKind::InvalidEnumValue, msg, k),
    }
}

/// How a column aligns its children; a value that is not a string is
/// ignored.
pub fn field_col_align(name: &str, es: &[Entry]) -> (r: FieldRead<ColAlign>)
    ensures
        match prop_index(es@, name@, 0) {
            None => r is Absent,
            Some(k) => match es@[k].value {
                KdlScalar::String(t) => if has_block(t@) { expr_read(r, t@) } else {
                    match spec_col_align(t@) {
                        Some(a) => r matches FieldRead::Read(FieldValue::Literal(x)) && x == a,
                        None => invalid_at(r, ConfigErrorKind::InvalidEnumValue,
                            "invalid align value for column, expected one of: l, c, r, left, center, right"@, k),
                    }
                },
                _ => r is Absent,
            },
        },
{
    let k = match prop(es, name) {
        Some(k) => k,
        None => return FieldRead::Absent,
    };
    match &es[k].value {
        KdlScalar::String(t) => if looks_like_expr(t.as_str()) {
            expr(t)
        } else {
            match parse_col_align(t.as_str()) {
                Some(a) => FieldRead::Read(FieldValue::Literal(a)),
                None => invalid(ConfigErrorKind::InvalidEnumValue,
                    "invalid align value for column, expected one of: l, c, r, left, center, right", k),
            }
        },
        _ => FieldRead::Absent,
    }
}

/// How a row aligns its children; a value that is not a string is ignored.
pub fn field_row_align(name: &str, es: &[Entry]) -> (r: FieldRead<RowAlign>)
    ensures
        match prop_index(es@, name@, 0) {
            None => r is Absent,
            Some(k) => match es@[k].value {
                KdlScalar::String(t) => if has_block(t@) { expr_read(r, t@) } else {
                    match spec_row_align(t@) {
                        Some(a) => r matches FieldRead::Read(FieldValue::Literal(x)) && x == a,
                        None => invalid_at(r, ConfigErrorKind::InvalidEnumValue,
                            "invalid align value for row, expected one of: t, c, b, top, center, bottom"@, k),
                    }
                },
                _ => r is Absent,
            },
        },
{
    let k = match prop(es, name) {
        Some(k) => k,
        None => return FieldRead::Absent,
    };
    match &es[k].value {
        KdlScalar::String(t) => if looks_like_expr(t.as_str()) {
            expr(t)
        } else {
            match parse_row_align(t.as_str()) {
                Some(a) => FieldRead::Read(FieldValue::Literal(a)),
                None => invalid(ConfigErrorKind::InvalidEnumValue,
                    "invalid align value for row, expected one of: t, c, b, top, center, bottom", k),
            }
        },
        _ => FieldRead::Absent,
    }
}


/// A configuration node: its name, its entries and its child block.
pub struct Node {
    pub name: String,
    pub entries: Vec<Entry>,
    pub children: Option<Vec<Node>>,
}

/// The string arguments (entries without a name) among `es`, in order.
pub open spec fn positional_strings(es: Seq<Entry>) -> Seq<Seq<char>>
    decreases es.len(),
{
    if es.len() == 0 {
        seq![]
    } else {
        let before = positional_strings(es.drop_last());
        if es.last().name is None && as_string(es.last().value) is Some {
            before.push(as_string(es.last().value)->0)
        } else {
            before
        }
    }
}

/// The first child node named `children`, from position `from` on.
pub open spec fn children_index(cs: Seq<Node>, from: int) -> Option<int>
    decreases cs.len() - from,
{
    if from < 0 || from >= cs.len() {
        None
    } else if cs[from].name@ == "children"@ {
        Some(from)
    } else {
        children_index(cs, from + 1)
    }
}

fn positional_string_list(es: &Vec<Entry>) -> (r: Vec<String>)
    ensures
        r@.len() == positional_strings(es@).len(),
        forall|i: int| 0 <= i < r@.len() ==> (#[trigger] r@[i])@ == positional_strings(es@)[i],
{
    let mut out: Vec<String> = Vec::new();
    let mut i: usize = 0;
    while i < es.len()
        invariant
            i <= es@.len(),
            out@.len() == positional_strings(es@.take(i as int)).len(),
            forall|j: int| 0 <= j < out@.len() ==> (#[trigger] out@[j])@ == positional_strings(es@.take(i as int))[j],
        decreases es@.len() - i,
    {
        proof {
            assert(es@.take(i + 1).drop_last() =~= es@.take(i as int));
            assert(es@.take(i + 1).last() == es@[i as int]);
        }
        match &es[i].name {
            None => match string_of(&es[i].value) {
                Some(t) => out.push(t.clone()),
                None => {},
            },
            Some(_) => {},
        }
        i = i + 1;
    }
    proof {
        assert(es@.take(i as int) =~= es@);
    }
    out
}

/// The `children` block of a node: the ids it lists, in order; an error
/// when it lists none; nothing when the node has no such block.
pub fn field_children(node: &Node) -> (r: FieldRead<Vec<String>>)
    ensures
        match node.children {
            None => r is Absent,
            Some(cs) => match children_index(cs@, 0) {
                None => r is Absent,
                Some(k) => if positional_strings(cs@[k].entries@).len() == 0 {
                    invalid_at(r, ConfigErrorKind::EmptyChildrenList, "children requires at least one id"@, k)
                } else {
                    r matches FieldRead::Read(FieldValue::Literal(ids))
                        && ids@.len() == positional_strings(cs@[k].entries@).len()
                        && forall|i: int| 0 <= i < ids@.len() ==> (#[trigger] ids@[i])@ == positional_strings(cs@[k].entries@)[i]
                },
            },
        },
{
    let cs = match &node.children {
        Some(cs) => cs,
        None => return FieldRead::Absent,
    };
    let mut k: usize = 0;
    while k < cs.len()
        invariant
            k <= cs@.len(),
            node.children == Some(*cs),
            children_index(cs@, 0) == children_index(cs@, k as int),
        decreases cs@.len() - k,
    {
        if str_eq(cs[k].name.as_str(), "children") {
            let ids = positional_string_list(&cs[k].entries);
            if ids.len() == 0 {
                return invalid(ConfigErrorKind::EmptyChildrenList, "children requires at least one id", k);
            }
            return FieldRead::Read(FieldValue::Literal(ids));
        }
        k = k + 1;
    }
    FieldRead::Absent
}

} // verus!

//! The fields each kind of element and block reads from its node, and the
//! problems a node's fields have. Every element node with an id is read
//! this way, whether its definition is kept or is a later duplicate.

use vstd::prelude::*;
use crate::config::document::ElementKind;
use crate::config::parser::{
    as_string, bool_message, children_index, color_text, field_align_x, field_align_y, field_anchor, field_bool,
    field_children, field_col_align, field_color, field_id_ref, field_layer, field_output, field_row_align,
    field_string, has_block, looks_like_expr, positional_strings, prop, prop_index, align_x_message,
    align_y_message, color_message, expr_read, invalid_at, text_field_ok, Entry, FieldRead, KdlScalar, Node,
};
use crate::config::primitives::output_named;
use crate::config::types::{AlignX, AlignY, Anchor, ColAlign, Color, FieldValue, Layer, Output, RowAlign};
use crate::config::primitives::{spec_align_x, spec_align_y, spec_col_align, spec_parse_anchor, spec_parse_layer, spec_row_align};
use crate::config::resolver::coerce::spec_color;
use crate::config::ConfigErrorKind;
use crate::text::{owned, push_str, str_eq};

verus! {

/// How a field is read.
#[derive(Debug, Clone, Copy, PartialEq, Eq, Structural)]
pub enum Reader {
    Number,
    Bool,
    Color,
    IdRef,
    Str,
    Layer,
    Anchor,
    Output,
    AlignX,
    AlignY,
    TextAlignX,
    RowAlign,
    ColAlign,
    Margin,
    Padding,
    Radius,
    Length,
    Offset,
    FontFamily,
    FontWeight,
    FontStretch,
    FontStyle,
    /// The `child` of a container, which is required.
    Child,
    /// The `children` block of a row or column, which is required.
    Children,
}

/// A problem with a field: at entry `entry` of the node, or of its child
/// node `child`, or (neither given) with the node itself.
pub struct Problem {
    pub kind: ConfigErrorKind,
    pub message: String,
    pub entry: Option<usize>,
    pub child: Option<usize>,
}

pub struct ProblemView {
    pub kind: ConfigErrorKind,
    pub message: Seq<char>,
    pub entry: Option<int>,
    pub child: Option<int>,
}

pub open spec fn opt_int(e: Option<usize>) -> Option<int> {
    match e {
        Some(i) => Some(i as int),
        None => None,
    }
}

pub open spec fn problem_view(p: Problem) -> ProblemView {
    ProblemView { kind: p.kind, message: p.message@, entry: opt_int(p.entry), child: opt_int(p.child) }
}

pub open spec fn problems_view(s: Seq<Problem>) -> Seq<ProblemView> {
    s.map_values(|p: Problem| problem_view(p))
}

pub open spec fn at_entry(kind: ConfigErrorKind, message: Seq<char>, k: int) -> Seq<ProblemView> {
    seq![ProblemView { kind, message, entry: Some(k), child: None }]
}

pub open spec fn on_node(kind: ConfigErrorKind, message: Seq<char>) -> Seq<ProblemView> {
    seq![ProblemView { kind, message, entry: None, child: None }]
}

/// Whether a value is a number (whole or decimal).
pub open spec fn is_number(v: KdlScalar) -> bool {
    v is Integer || v is Float
}

/// Whether a value is a string holding `${`.
pub open spec fn is_expr(v: KdlScalar) -> bool {
    match as_string(v) {
        Some(t) => has_block(t),
        None => false,
    }
}

/// How many arguments of `es` are numbers.
pub open spec fn number_count(es: Seq<Entry>) -> nat
    decreases es.len(),
{
    if es.len() == 0 {
        0
    } else {
        number_count(es.drop_last()) + if es.last().name is None && is_number(es.last().value) { 1nat } else { 0nat }
    }
}

/// The first child node named `name`, from position `from` on.
pub open spec fn child_named(cs: Seq<Node>, name: Seq<char>, from: int) -> Option<int>
    decreases cs.len() - from,
{
    if from < 0 || from >= cs.len() {
        None
    } else if cs[from].name@ == name {
        Some(from)
    } else {
        child_named(cs, name, from + 1)
    }
}

/// The first child node named `name` that has a `portion` property, with
/// the position of that property.
pub open spec fn portion_child(cs: Seq<Node>, name: Seq<char>, from: int) -> Option<(int, int)>
    decreases cs.len() - from,
{
    if from < 0 || from >= cs.len() {
        None
    } else if cs[from].name@ == name && prop_index(cs[from].entries@, "portion"@, 0) is Some {
        Some((from, prop_index(cs[from].entries@, "portion"@, 0)->0))
    } else {
        portion_child(cs, name, from + 1)
    }
}

pub open spec fn text_align_message() -> Seq<char> {
    "invalid align_x value, expected one of: l, c, r, j, left, center, right, justified"@
}

pub open spec fn text_align_word(t: Seq<char>) -> bool {
    t == "l"@ || t == "c"@ || t == "r"@ || t == "j"@ || t == "left"@ || t == "center"@ || t == "right"@
        || t == "justified"@
}

pub open spec fn weight_message() -> Seq<char> {
    "invalid weight, expected one of: thin, extra-light, light, normal, medium, semibold, bold, extra-bold, black"@
}

pub open spec fn weight_word(t: Seq<char>) -> bool {
    t == "thin"@ || t == "extra-light"@ || t == "light"@ || t == "normal"@ || t == "medium"@ || t == "semibold"@
        || t == "bold"@ || t == "extra-bold"@ || t == "black"@
}

pub open spec fn stretch_message() -> Seq<char> {
    "invalid stretch, expected one of: ultra-condensed, extra-condensed, condensed, semi-condensed, normal, semi-expanded, expanded, extra-expanded, ultra-expanded"@
}

pub open spec fn stretch_word(t: Seq<char>) -> bool {
    t == "ultra-condensed"@ || t == "extra-condensed"@ || t == "condensed"@ || t == "semi-condensed"@
        || t == "normal"@ || t == "semi-expanded"@ || t == "expanded"@ || t == "extra-expanded"@
        || t == "ultra-expanded"@
}

pub open spec fn style_message() -> Seq<char> {
    "invalid style, expected one of: normal, italic, oblique"@
}

pub open spec fn style_word(t: Seq<char>) -> bool {
    t == "normal"@ || t == "italic"@ || t == "oblique"@
}

/// The message and allowed counts of a field of several numbers.
pub open spec fn arity_rule(r: Reader) -> (ConfigErrorKind, Seq<char>) {
    match r {
        Reader::Margin => (ConfigErrorKind::InvalidMarginArity, "margin accepts 1, 2, or 4 values"@),
        Reader::Padding => (ConfigErrorKind::InvalidPaddingArity, "padding accepts 1, 2, or 4 values"@),
        _ => (ConfigErrorKind::InvalidRadiusArity, "radius accepts 1 or 4 values"@),
    }
}

pub open spec fn arity_ok(r: Reader, n: nat) -> bool {
    match r {
        Reader::Radius => n == 1 || n == 4,
        _ => n == 1 || n == 2 || n == 4,
    }
}

/// The problems a field of node `n` has when read with `r`.
pub open spec fn reader_problems(r: Reader, name: Seq<char>, n: Node) -> Seq<ProblemView> {
    let es = n.entries@;
    let p = prop_index(es, name, 0);
    match r {
        Reader::Number => match p {
            Some(k) => if is_number(es[k].value) || is_expr(es[k].value) { seq![] } else {
                at_entry(ConfigErrorKind::InvalidLengthValue, "field `"@ + name + "` expects a number"@, k)
            },
            None => seq![],
        },
        Reader::Bool => match p {
            Some(k) => if es[k].value is Bool || is_expr(es[k].value) { seq![] } else {
                at_entry(ConfigErrorKind::InvalidBool, bool_message(), k)
            },
            None => seq![],
        },
        Reader::Color => match p {
            Some(k) => match color_text(es[k].value) {
                Some(t) => if has_block(t) || spec_color(t) is Some { seq![] } else {
                    at_entry(ConfigErrorKind::InvalidColor, crate::config::parser::color_message(), k)
                },
                None => at_entry(ConfigErrorKind::InvalidColor, crate::config::parser::color_message(), k),
            },
            None => seq![],
        },
        Reader::IdRef | Reader::Child => {
            let own: Seq<ProblemView> = match p {
                Some(k) => if es[k].value is String { seq![] } else {
                    at_entry(ConfigErrorKind::InvalidFieldType, "field `"@ + name + "` expects an id (string)"@, k)
                },
                None => seq![],
            };
            if r is Child && !(p matches Some(k) && es[k].value is String) {
                own + on_node(ConfigErrorKind::MissingRequiredField, "child is required"@)
            } else {
                own
            }
        },
        Reader::Str => match p {
            Some(k) => if es[k].value is String { seq![] } else {
                at_entry(ConfigErrorKind::InvalidFieldType, "field `"@ + name + "` expects a string"@, k)
            },
            None => seq![],
        },
        Reader::Layer => match p {
            Some(k) => match as_string(es[k].value) {
                Some(t) => if has_block(t) || spec_parse_layer(t) is Some { seq![] } else {
                    at_entry(ConfigErrorKind::InvalidEnumValue,
                        "invalid layer value \""@ + t + "\", expected one of: top, bottom, background, overlay"@, k)
                },
                None => at_entry(ConfigErrorKind::InvalidEnumValue,
                    "invalid layer value, expected one of: top, bottom, background, overlay"@, k),
            },
            None => seq![],
        },
        Reader::Anchor => match p {
            Some(k) => match as_string(es[k].value) {
                Some(t) => if has_block(t) { seq![] } else {
                    match spec_parse_anchor(t) {
                        Ok(_) => seq![],
                        Err(tok) => at_entry(ConfigErrorKind::InvalidEnumValue, "invalid anchor token \""@ + tok + "\""@, k),
                    }
                },
                None => at_entry(ConfigErrorKind::InvalidEnumValue, "anchor must be a string"@, k),
            },
            None => seq![],
        },
        Reader::Output => match p {
            Some(k) => if es[k].value is String { seq![] } else {
                at_entry(ConfigErrorKind::InvalidEnumValue, "invalid output value, expected a string or `last`"@, k)
            },
            None => seq![],
        },
        Reader::AlignX => match p {
            Some(k) => match as_string(es[k].value) {
                Some(t) => if has_block(t) || spec_align_x(t) is Some { seq![] } else {
                    at_entry(ConfigErrorKind::InvalidEnumValue, align_x_message(), k)
                },
                None => at_entry(ConfigErrorKind::InvalidEnumValue, align_x_message(), k),
            },
            None => seq![],
        },
        Reader::AlignY => match p {
            Some(k) => match as_string(es[k].value) {
                Some(t) => if has_block(t) || spec_align_y(t) is Some { seq![] } else {
                    at_entry(ConfigErrorKind::InvalidEnumValue, align_y_message(), k)
                },
                None => at_entry(ConfigErrorKind::InvalidEnumValue, align_y_message(), k),
            },
            None => seq![],
        },
        Reader::TextAlignX => match p {
            Some(k) => match as_string(es[k].value) {
                Some(t) => if has_block(t) || text_align_word(t) { seq![] } else {
                    at_entry(ConfigErrorKind::InvalidEnumValue, text_align_message(), k)
                },
                None => at_entry(ConfigErrorKind::InvalidEnumValue, text_align_message(), k),
            },
            None => seq![],
        },
        Reader::RowAlign => match p {
            Some(k) => match as_string(es[k].value) {
                Some(t) => if has_block(t) || spec_row_align(t) is Some { seq![] } else {
                    at_entry(ConfigErrorKind::InvalidEnumValue,
                        "invalid align value for row, expected one of: t, c, b, top, center, bottom"@, k)
                },
                None => seq![],
            },
            None => seq![],
        },
        Reader::ColAlign => match p {
            Some(k) => match as_string(es[k].value) {
                Some(t) => if has_block(t) || spec_col_align(t) is Some { seq![] } else {
                    at_entry(ConfigErrorKind::InvalidEnumValue,
                        "invalid align value for column, expected one of: l, c, r, left, center, right"@, k)
                },
                None => seq![],
            },
            None => seq![],
        },
        Reader::Margin | Reader::Padding | Reader::Radius => match p {
            Some(k) => if is_number(es[k].value) || is_expr(es[k].value) { seq![] } else {
                at_entry(arity_rule(r).0, arity_rule(r).1, k)
            },
            None => match n.children {
                None => seq![],
                Some(cs) => match child_named(cs@, name, 0) {
                    None => seq![],
                    Some(c) => if arity_ok(r, number_count(cs@[c].entries@)) { seq![] } else {
                        seq![ProblemView { kind: arity_rule(r).0, message: arity_rule(r).1, entry: None, child: Some(c) }]
                    },
                },
            },
        },
        Reader::Length => match p {
            Some(k) => match as_string(es[k].value) {
                Some(t) => if has_block(t) || t == "fill"@ || t == "shrink"@ { seq![] } else if t == "portion"@ {
                    at_entry(ConfigErrorKind::PortionMissingInt, "portion requires an integer argument"@, k)
                } else {
                    at_entry(ConfigErrorKind::InvalidLengthValue, "invalid length value \""@ + t + "\""@, k)
                },
                None => seq![],
            },
            None => match n.children {
                None => seq![],
                Some(cs) => match portion_child(cs@, name, 0) {
                    None => seq![],
                    Some((c, q)) => if cs@[c].entries@[q].value is Integer { seq![] } else {
                        seq![ProblemView {
                            kind: ConfigErrorKind::PortionMissingInt,
                            message: "portion requires an integer argument"@,
                            entry: Some(q),
                            child: Some(c),
                        }]
                    },
                },
            },
        },
        Reader::Offset => match n.children {
            None => seq![],
            Some(cs) => match child_named(cs@, name, 0) {
                None => seq![],
                Some(c) => if number_count(cs@[c].entries@) == 2 { seq![] } else {
                    seq![ProblemView {
                        kind: ConfigErrorKind::InvalidOffsetArity,
                        message: "offset requires exactly 2 values"@,
                        entry: None,
                        child: Some(c),
                    }]
                },
            },
        },
        Reader::FontFamily => match p {
            Some(k) => if es[k].value is String { seq![] } else {
                at_entry(ConfigErrorKind::InvalidEnumValue, "font family must be a string"@, k)
            },
            None => seq![],
        },
        Reader::FontWeight | Reader::FontStretch | Reader::FontStyle => {
            let (ok, msg) = match r {
                Reader::FontWeight => (|t: Seq<char>| weight_word(t), weight_message()),
                Reader::FontStretch => (|t: Seq<char>| stretch_word(t), stretch_message()),
                _ => (|t: Seq<char>| style_word(t), style_message()),
            };
            match p {
                Some(k) => match as_string(es[k].value) {
                    Some(t) => if ok(t) { seq![] } else { at_entry(ConfigErrorKind::InvalidEnumValue, msg, k) },
                    None => at_entry(ConfigErrorKind::InvalidEnumValue, msg, k),
                },
                None => seq![],
            }
        },
        Reader::Children => match n.children {
            None => on_node(ConfigErrorKind::MissingRequiredField, "children is required"@),
            Some(cs) => match children_index(cs@, 0) {
                None => on_node(ConfigErrorKind::MissingRequiredField, "children is required"@),
                Some(c) => if positional_strings(cs@[c].entries@).len() == 0 {
                    seq![ProblemView {
                        kind: ConfigErrorKind::EmptyChildrenList,
                        message: "children requires at least one id"@,
                        entry: None,
                        child: Some(c),
                    }]
                } else {
                    seq![]
                },
            },
        },
    }
}

/// The problems of the fields `fs` of node `n`, read in order.
pub open spec fn fields_problems(fs: Seq<(Reader, Seq<char>)>, n: Node) -> Seq<ProblemView>
    decreases fs.len(),
{
    if fs.len() == 0 {
        seq![]
    } else {
        fields_problems(fs.drop_last(), n) + reader_problems(fs.last().0, fs.last().1, n)
    }
}

fn no_problem() -> (r: Vec<Problem>)
    ensures
        problems_view(r@) == Seq::<ProblemView>::empty(),
{
    let r: Vec<Problem> = Vec::new();
    proof {
        assert(problems_view(r@) =~= Seq::<ProblemView>::empty());
    }
    r
}

fn problem(kind: ConfigErrorKind, message: String, entry: Option<usize>, child: Option<usize>) -> (r: Vec<Problem>)
    ensures
        problems_view(r@) == seq![ProblemView { kind, message: message@, entry: opt_int(entry), child: opt_int(child) }],
{
    let mut r: Vec<Problem> = Vec::new();
    r.push(Problem { kind, message, entry, child });
    proof {
        assert(problems_view(r@) =~= seq![ProblemView { kind, message: message@, entry: opt_int(entry), child: opt_int(child) }]);
    }
    r
}

/// The problem of a field read, if the read failed.
fn invalid_problems<T>(r: FieldRead<T>) -> (out: Vec<Problem>)
    ensures
        match r {
            FieldRead::Invalid { kind, message, at } => problems_view(out@) == at_entry(kind, message@, at as int),
            _ => problems_view(out@) == Seq::<ProblemView>::empty(),
        },
{
    match r {
        FieldRead::Invalid { kind, message, at } => problem(kind, message, Some(at), None),
        _ => no_problem(),
    }
}

fn is_number_value(v: &KdlScalar) -> (r: bool)
    ensures
        r == is_number(*v),
{
    match v {
        KdlScalar::Integer(_) => true,
        KdlScalar::Float => true,
        _ => false,
    }
}

fn is_expr_value(v: &KdlScalar) -> (r: bool)
    ensures
        r == is_expr(*v),
{
    match v {
        KdlScalar::String(t) => looks_like_expr(t.as_str()),
        _ => false,
    }
}

fn count_numbers(es: &Vec<Entry>) -> (r: usize)
    ensures
        r == number_count(es@),
{
    let mut n: usize = 0;
    let mut i: usize = 0;
    while i < es.len()
        invariant
            i <= es@.len(),
            n == number_count(es@.take(i as int)),
            n <= i,
        decreases es@.len() - i,
    {
        proof {
            assert(es@.take(i + 1).drop_last() =~= es@.take(i as int));
        }
        if es[i].name.is_none() && is_number_value(&es[i].value) {
            n = n + 1;
        }
        i = i + 1;
    }
    proof {
        assert(es@.take(i as int) =~= es@);
    }
    n
}

fn find_child(cs: &Vec<Node>, name: &str) -> (r: Option<usize>)
    ensures
        match child_named(cs@, name@, 0) {
            Some(c) => r matches Some(x) && x == c && 0 <= c < cs@.len(),
            None => r is None,
        },
{
    let mut i: usize = 0;
    while i < cs.len()
        invariant
            i <= cs@.len(),
            child_named(cs@, name@, 0) == child_named(cs@, name@, i as int),
        decreases cs@.len() - i,
    {
        if str_eq(cs[i].name.as_str(), name) {
            return Some(i);
        }
        i = i + 1;
    }
    None
}

fn find_portion(cs: &Vec<Node>, name: &str) -> (r: Option<(usize, usize)>)
    ensures
        match portion_child(cs@, name@, 0) {
            Some((c, q)) => r matches Some((x, y)) && x == c && y == q && 0 <= c < cs@.len() && 0 <= q < cs@[c].entries@.len(),
            None => r is None,
        },
{
    let mut i: usize = 0;
    while i < cs.len()
        invariant
            i <= cs@.len(),
            portion_child(cs@, name@, 0) == portion_child(cs@, name@, i as int),
        decreases cs@.len() - i,
    {
        if str_eq(cs[i].name.as_str(), name) {
            match prop(cs[i].entries.as_slice(), "portion") {
                Some(q) => {
                    return Some((i, q));
                },
                None => {},
            }
        }
        i = i + 1;
    }
    None
}

fn named_message(before: &str, name: &str, after: &str) -> (r: String)
    ensures
        r@ == before@ + name@ + after@,
{
    let mut m = owned(before);
    push_str(&mut m, name);
    push_str(&mut m, after);
    m
}

fn check_number(name: &str, n: &Node) -> (out: Vec<Problem>)
    ensures
        problems_view(out@) == reader_problems(Reader::Number, name@, *n),
{
    let es = &n.entries;
    match prop(es.as_slice(), name) {
        None => no_problem(),
        Some(k) => if is_number_value(&es[k].value) || is_expr_value(&es[k].value) {
            no_problem()
        } else {
            problem(ConfigErrorKind::InvalidLengthValue, named_message("field `", name, "` expects a number"), Some(k), None)
        },
    }
}

fn check_child(name: &str, n: &Node) -> (out: Vec<Problem>)
    ensures
        problems_view(out@) == reader_problems(Reader::Child, name@, *n),
{
    let r = field_id_ref(name, n.entries.as_slice());
    match r {
        FieldRead::Read(_) => no_problem(),
        FieldRead::Absent => problem(ConfigErrorKind::MissingRequiredField, owned("child is required"), None, None),
        FieldRead::Invalid { kind, message, at } => {
            let mut out = problem(kind, message, Some(at), None);
            let ghost before = out@;
            out.push(Problem { kind: ConfigErrorKind::MissingRequiredField, message: owned("child is required"), entry: None, child: None });
            proof {
                assert(problems_view(out@) =~= problems_view(before) + on_node(ConfigErrorKind::MissingRequiredField, "child is required"@));
            }
            out
        },
    }
}

fn check_children(n: &Node) -> (out: Vec<Problem>)
    ensures
        problems_view(out@) == reader_problems(Reader::Children, "children"@, *n),
{
    match field_children(n) {
        FieldRead::Read(_) => no_problem(),
        FieldRead::Absent => problem(ConfigErrorKind::MissingRequiredField, owned("children is required"), None, None),
        FieldRead::Invalid { kind, message, at } => problem(kind, message, None, Some(at)),
    }
}

fn check_arity(r: Reader, name: &str, n: &Node) -> (out: Vec<Problem>)
    requires
        r is Margin || r is Padding || r is Radius,
    ensures
        problems_view(out@) == reader_problems(r, name@, *n),
{
    let es = &n.entries;
    let (kind, msg) = match r {
        Reader::Margin => (ConfigErrorKind::InvalidMarginArity, "margin accepts 1, 2, or 4 values"),
        Reader::Padding => (ConfigErrorKind::InvalidPaddingArity, "padding accepts 1, 2, or 4 values"),
        _ => (ConfigErrorKind::InvalidRadiusArity, "radius accepts 1 or 4 values"),
    };
    match prop(es.as_slice(), name) {
        Some(k) => if is_number_value(&es[k].value) || is_expr_value(&es[k].value) {
            no_problem()
        } else {
            problem(kind, owned(msg), Some(k), None)
        },
        None => match &n.children {
            None => no_problem(),
            Some(cs) => match find_child(cs, name) {
                None => no_problem(),
                Some(c) => {
                    let count = count_numbers(&cs[c].entries);
                    let ok = match r {
                        Reader::Radius => count == 1 || count == 4,
                        _ => count == 1 || count == 2 || count == 4,
                    };
                    if ok { no_problem() } else { problem(kind, owned(msg), None, Some(c)) }
                },
            },
        },
    }
}

fn check_length(name: &str, n: &Node) -> (out: Vec<Problem>)
    ensures
        problems_view(out@) == reader_problems(Reader::Length, name@, *n),
{
    let es = &n.entries;
    match prop(es.as_slice(), name) {
        Some(k) => match &es[k].value {
            KdlScalar::String(t) => {
                let t = t.as_str();
                if looks_like_expr(t) || str_eq(t, "fill") || str_eq(t, "shrink") {
                    no_problem()
                } else if str_eq(t, "portion") {
                    problem(ConfigErrorKind::PortionMissingInt, owned("portion requires an integer argument"), Some(k), None)
                } else {
                    problem(ConfigErrorKind::InvalidLengthValue, named_message("invalid length value \"", t, "\""), Some(k), None)
                }
            },
            _ => no_problem(),
        },
        None => match &n.children {
            None => no_problem(),
            Some(cs) => match find_portion(cs, name) {
                None => no_problem(),
                Some((c, q)) => match &cs[c].entries[q].value {
                    KdlScalar::Integer(_) => no_problem(),
                    _ => problem(ConfigErrorKind::PortionMissingInt, owned("portion requires an integer argument"), Some(q), Some(c)),
                },
            },
        },
    }
}

fn check_offset(name: &str, n: &Node) -> (out: Vec<Problem>)
    ensures
        problems_view(out@) == reader_problems(Reader::Offset, name@, *n),
{
    match &n.children {
        None => no_problem(),
        Some(cs) => match find_child(cs, name) {
            None => no_problem(),
            Some(c) => if count_numbers(&cs[c].entries) == 2 {
                no_problem()
            } else {
                problem(ConfigErrorKind::InvalidOffsetArity, owned("offset requires exactly 2 values"), None, Some(c))
            },
        },
    }
}

fn check_words(r: Reader, name: &str, n: &Node) -> (out: Vec<Problem>)
    requires
        r is TextAlignX || r is FontWeight || r is FontStretch || r is FontStyle,
    ensures
        problems_view(out@) == reader_problems(r, name@, *n),
{
    let es = &n.entries;
    let msg = match r {
        Reader::TextAlignX => "invalid align_x value, expected one of: l, c, r, j, left, center, right, justified",
        Reader::FontWeight => "invalid weight, expected one of: thin, extra-light, light, normal, medium, semibold, bold, extra-bold, black",
        Reader::FontStretch => "invalid stretch, expected one of: ultra-condensed, extra-condensed, condensed, semi-condensed, normal, semi-expanded, expanded, extra-expanded, ultra-expanded",
        _ => "invalid style, expected one of: normal, italic, oblique",
    };
    match prop(es.as_slice(), name) {
        None => no_problem(),
        Some(k) => match &es[k].value {
            KdlScalar::String(t) => {
                let t = t.as_str();
                let ok = match r {
                    Reader::TextAlignX => looks_like_expr(t) || str_eq(t, "l") || str_eq(t, "c") || str_eq(t, "r")
                        || str_eq(t, "j") || str_eq(t, "left") || str_eq(t, "center") || str_eq(t, "right")
                        || str_eq(t, "justified"),
                    Reader::FontWeight => str_eq(t, "thin") || str_eq(t, "extra-light") || str_eq(t, "light")
                        || str_eq(t, "normal") || str_eq(t, "medium") || str_eq(t, "semibold") || str_eq(t, "bold")
                        || str_eq(t, "extra-bold") || str_eq(t, "black"),
                    Reader::FontStretch => str_eq(t, "ultra-condensed") || str_eq(t, "extra-condensed")
                        || str_eq(t, "condensed") || str_eq(t, "semi-condensed") || str_eq(t, "normal")
                        || str_eq(t, "semi-expanded") || str_eq(t, "expanded") || str_eq(t, "extra-expanded")
                        || str_eq(t, "ultra-expanded"),
                    _ => str_eq(t, "normal") || str_eq(t, "italic") || str_eq(t, "oblique"),
                };
                if ok { no_problem() } else { problem(ConfigErrorKind::InvalidEnumValue, owned(msg), Some(k), None) }
            },
            _ => problem(ConfigErrorKind::InvalidEnumValue, owned(msg), Some(k), None),
        },
    }
}

fn check_family(name: &str, n: &Node) -> (out: Vec<Problem>)
    ensures
        problems_view(out@) == reader_problems(Reader::FontFamily, name@, *n),
{
    let es = &n.entries;
    match prop(es.as_slice(), name) {
        None => {
            assert(prop_index(n.entries@, name@, 0) is None);
            assert(reader_problems(Reader::FontFamily, name@, *n) == Seq::<ProblemView>::empty());
            no_problem()
        },
        Some(k) => match &es[k].value {
            KdlScalar::String(_) => no_problem(),
            _ => {
                let out = problem(ConfigErrorKind::InvalidEnumValue, owned("font family must be a string"), Some(k), None);
                assert(prop_index(n.entries@, name@, 0) == Some(k as int));
                assert(!(n.entries@[k as int].value is String));
                assert(problems_view(out@) == at_entry(ConfigErrorKind::InvalidEnumValue, "font family must be a string"@, k as int));
                out
            },
        },
    }
}

/// The problems of the field `name` of node `n`, read with `r`.
pub fn reader_check(r: Reader, name: &str, n: &Node) -> (out: Vec<Problem>)
    ensures
        problems_view(out@) == reader_problems(r, name@, *n),
{
    let es = n.entries.as_slice();
    match r {
        Reader::Number => check_number(name, n),
        Reader::Bool => invalid_problems(field_bool(name, es)),
        Reader::Color => invalid_problems(field_color(name, es)),
        Reader::IdRef => invalid_problems(field_id_ref(name, es)),
        Reader::Str => invalid_problems(field_string(name, es)),
        Reader::Layer => invalid_problems(field_layer(name, es)),
        Reader::Anchor => invalid_problems(field_anchor(name, es)),
        Reader::Output => invalid_problems(field_output(name, es)),
        Reader::AlignX => invalid_problems(field_align_x(name, es)),
        Reader::AlignY => invalid_problems(field_align_y(name, es)),
        Reader::RowAlign => invalid_problems(field_row_align(name, es)),
        Reader::ColAlign => invalid_problems(field_col_align(name, es)),
        Reader::Child => check_child(name, n),
        Reader::Children => check_children(n),
        Reader::Margin | Reader::Padding | Reader::Radius => check_arity(r, name, n),
        Reader::Length => check_length(name, n),
        Reader::Offset => check_offset(name, n),
        Reader::FontFamily => check_family(name, n),
        _ => check_words(r, name, n),
    }
}


/// What a node builds: an element of some kind, or one of the two blocks.
#[derive(Debug, Clone, Copy, PartialEq, Eq, Structural)]
pub enum Form {
    Element(ElementKind),
    Apptray,
    Notification,
}

/// The fields a form reads, in the order it reads them.
pub open spec fn fields_of(f: Form) -> Seq<(Reader, Seq<char>)> {
    match f {
        Form::Element(ElementKind::Widget) => seq![(Reader::Number, "h"@), (Reader::Number, "w"@), (Reader::Layer, "layer"@), (Reader::Anchor, "anchor"@), (Reader::Bool, "exclusive"@), (Reader::Margin, "margin"@), (Reader::Output, "output"@), (Reader::Bool, "keyboard"@), (Reader::Bool, "transparent"@), (Reader::IdRef, "child"@)],
        Form::Element(ElementKind::Container) => seq![(Reader::Child, "child"@), (Reader::Length, "w"@), (Reader::Length, "h"@), (Reader::Padding, "padding"@), (Reader::AlignX, "align_x"@), (Reader::AlignY, "align_y"@), (Reader::Bool, "clip"@), (Reader::IdRef, "style"@)],
        Form::Element(ElementKind::Style) => seq![(Reader::Color, "text"@), (Reader::Color, "bg"@), (Reader::IdRef, "border"@), (Reader::IdRef, "shadow"@), (Reader::Bool, "snap"@)],
        Form::Element(ElementKind::Border) => seq![(Reader::Color, "color"@), (Reader::Number, "w"@), (Reader::Radius, "radius"@)],
        Form::Element(ElementKind::Shadow) => seq![(Reader::Color, "color"@), (Reader::Offset, "offset"@), (Reader::Number, "blur_radius"@)],
        Form::Element(ElementKind::Font) => seq![(Reader::FontFamily, "family"@), (Reader::FontWeight, "weight"@), (Reader::FontStretch, "stretch"@), (Reader::FontStyle, "style"@)],
        Form::Element(ElementKind::Button) => seq![(Reader::Length, "w"@), (Reader::Length, "h"@), (Reader::Padding, "padding"@), (Reader::Str, "action"@), (Reader::Bool, "clip"@), (Reader::IdRef, "style"@), (Reader::IdRef, "style:hover"@), (Reader::IdRef, "style:active"@), (Reader::IdRef, "style:disabled"@), (Reader::Str, "text"@), (Reader::Str, "font"@)],
        Form::Element(ElementKind::Row) => seq![(Reader::Children, "children"@), (Reader::Length, "w"@), (Reader::Length, "h"@), (Reader::Padding, "padding"@), (Reader::Number, "spacing"@), (Reader::Bool, "clip"@), (Reader::RowAlign, "align"@)],
        Form::Element(ElementKind::Column) => seq![(Reader::Children, "children"@), (Reader::Length, "w"@), (Reader::Length, "h"@), (Reader::Padding, "padding"@), (Reader::Number, "spacing"@), (Reader::Bool, "clip"@), (Reader::ColAlign, "align"@)],
        Form::Element(ElementKind::Text) => seq![(Reader::Length, "w"@), (Reader::Length, "h"@), (Reader::TextAlignX, "align_x"@), (Reader::AlignY, "align_y"@), (Reader::Color, "color"@), (Reader::Str, "font"@), (Reader::Str, "text"@)],
        Form::Apptray => seq![(Reader::Number, "icon_size"@), (Reader::Number, "spacing"@), (Reader::Padding, "padding"@), (Reader::Color, "bg"@), (Reader::IdRef, "border"@), (Reader::Bool, "swap_buttons"@), (Reader::Bool, "vertical"@), (Reader::Color, "menu_bg"@), (Reader::Color, "menu_text"@), (Reader::Color, "menu_disabled"@)],
        Form::Notification => seq![(Reader::Number, "width"@), (Reader::Number, "height"@), (Reader::Color, "primary_text"@), (Reader::Color, "secondary_text"@), (Reader::Color, "bg"@), (Reader::IdRef, "border"@), (Reader::Str, "font"@), (Reader::Anchor, "anchor"@), (Reader::Margin, "margin"@), (Reader::Number, "gap"@), (Reader::Number, "max"@), (Reader::Number, "timeout"@), (Reader::Layer, "layer"@), (Reader::Bool, "respect_notification_icon"@), (Reader::Bool, "freeze_on_hover"@)],
    }
}

pub open spec fn fields_view(v: Seq<(Reader, &str)>) -> Seq<(Reader, Seq<char>)> {
    v.map_values(|p: (Reader, &str)| (p.0, p.1@))
}

fn push_field(v: &mut Vec<(Reader, &'static str)>, r: Reader, name: &'static str)
    ensures
        fields_view(final(v)@) == fields_view(old(v)@).push((r, name@)),
{
    let ghost before = v@;
    v.push((r, name));
    proof {
        assert(fields_view(before.push((r, name))) =~= fields_view(before).push((r, name@)));
    }
}

/// The fields a form reads, in the order it reads them.
pub fn form_fields(f: Form) -> (r: Vec<(Reader, &'static str)>)
    ensures
        fields_view(r@) == fields_of(f),
{
    let mut v: Vec<(Reader, &'static str)> = Vec::new();
    proof {
        assert(fields_view(v@) =~= Seq::<(Reader, Seq<char>)>::empty());
    }
    match f {
        Form::Element(ElementKind::Widget) => {
            push_field(&mut v, Reader::Number, "h");
            push_field(&mut v, Reader::Number, "w");
            push_field(&mut v, Reader::Layer, "layer");
            push_field(&mut v, Reader::Anchor, "anchor");
            push_field(&mut v, Reader::Bool, "exclusive");
            push_field(&mut v, Reader::Margin, "margin");
            push_field(&mut v, Reader::Output, "output");
            push_field(&mut v, Reader::Bool, "keyboard");
            push_field(&mut v, Reader::Bool, "transparent");
            push_field(&mut v, Reader::IdRef, "child");
            proof {
                assert(fields_view(v@) =~= fields_of(f));
            }
        },
        Form::Element(ElementKind::Container) => {
            push_field(&mut v, Reader::Child, "child");
            push_field(&mut v, Reader::Length, "w");
            push_field(&mut v, Reader::Length, "h");
            push_field(&mut v, Reader::Padding, "padding");
            push_field(&mut v, Reader::AlignX, "align_x");
            push_field(&mut v, Reader::AlignY, "align_y");
            push_field(&mut v, Reader::Bool, "clip");
            push_field(&mut v, Reader::IdRef, "style");
            proof {
                assert(fields_view(v@) =~= fields_of(f));
            }
        },
        Form::Element(ElementKind::Style) => {
            push_field(&mut v, Reader::Color, "text");
            push_field(&mut v, Reader::Color, "bg");
            push_field(&mut v, Reader::IdRef, "border");
            push_field(&mut v, Reader::IdRef, "shadow");
            push_field(&mut v, Reader::Bool, "snap");
            proof {
                assert(fields_view(v@) =~= fields_of(f));
            }
        },
        Form::Element(ElementKind::Border) => {
            push_field(&mut v, Reader::Color, "color");
            push_field(&mut v, Reader::Number, "w");
            push_field(&mut v, Reader::Radius, "radius");
            proof {
                assert(fields_view(v@) =~= fields_of(f));
            }
        },
        Form::Element(ElementKind::Shadow) => {
            push_field(&mut v, Reader::Color, "color");
            push_field(&mut v, Reader::Offset, "offset");
            push_field(&mut v, Reader::Number, "blur_radius");
            proof {
                assert(fields_view(v@) =~= fields_of(f));
            }
        },
        Form::Element(ElementKind::Font) => {
            push_field(&mut v, Reader::FontFamily, "family");
            push_field(&mut v, Reader::FontWeight, "weight");
            push_field(&mut v, Reader::FontStretch, "stretch");
            push_field(&mut v, Reader::FontStyle, "style");
            proof {
                assert(fields_view(v@) =~= fields_of(f));
            }
        },
        Form::Element(ElementKind::Button) => {
            push_field(&mut v, Reader::Length, "w");
            push_field(&mut v, Reader::Length, "h");
            push_field(&mut v, Reader::Padding, "padding");
            push_field(&mut v, Reader::Str, "action");
            push_field(&mut v, Reader::Bool, "clip");
            push_field(&mut v, Reader::IdRef, "style");
            push_field(&mut v, Reader::IdRef, "style:hover");
            push_field(&mut v, Reader::IdRef, "style:active");
            push_field(&mut v, Reader::IdRef, "style:disabled");
            push_field(&mut v, Reader::Str, "text");
            push_field(&mut v, Reader::Str, "font");
            proof {
                assert(fields_view(v@) =~= fields_of(f));
            }
        },
        Form::Element(ElementKind::Row) => {
            push_field(&mut v, Reader::Children, "children");
            push_field(&mut v, Reader::Length, "w");
            push_field(&mut v, Reader::Length, "h");
            push_field(&mut v, Reader::Padding, "padding");
            push_field(&mut v, Reader::Number, "spacing");
            push_field(&mut v, Reader::Bool, "clip");
            push_field(&mut v, Reader::RowAlign, "align");
            proof {
                assert(fields_view(v@) =~= fields_of(f));
            }
        },
        Form::Element(ElementKind::Column) => {
            push_field(&mut v, Reader::Children, "children");
            push_field(&mut v, Reader::Length, "w");
            push_field(&mut v, Reader::Length, "h");
            push_field(&mut v, Reader::Padding, "padding");
            push_field(&mut v, Reader::Number, "spacing");
            push_field(&mut v, Reader::Bool, "clip");
            push_field(&mut v, Reader::ColAlign, "align");
            proof {
                assert(fields_view(v@) =~= fields_of(f));
            }
        },
        Form::Element(ElementKind::Text) => {
            push_field(&mut v, Reader::Length, "w");
            push_field(&mut v, Reader::Length, "h");
            push_field(&mut v, Reader::TextAlignX, "align_x");
            push_field(&mut v, Reader::AlignY, "align_y");
            push_field(&mut v, Reader::Color, "color");
            push_field(&mut v, Reader::Str, "font");
            push_field(&mut v, Reader::Str, "text");
            proof {
                assert(fields_view(v@) =~= fields_of(f));
            }
        },
        Form::Apptray => {
            push_field(&mut v, Reader::Number, "icon_size");
            push_field(&mut v, Reader::Number, "spacing");
            push_field(&mut v, Reader::Padding, "padding");
            push_field(&mut v, Reader::Color, "bg");
            push_field(&mut v, Reader::IdRef, "border");
            push_field(&mut v, Reader::Bool, "swap_buttons");
            push_field(&mut v, Reader::Bool, "vertical");
            push_field(&mut v, Reader::Color, "menu_bg");
            push_field(&mut v, Reader::Color, "menu_text");
            push_field(&mut v, Reader::Color, "menu_disabled");
            proof {
                assert(fields_view(v@) =~= fields_of(f));
            }
        },
        Form::Notification => {
            push_field(&mut v, Reader::Number, "width");
            push_field(&mut v, Reader::Number, "height");
            push_field(&mut v, Reader::Color, "primary_text");
            push_field(&mut v, Reader::Color, "secondary_text");
            push_field(&mut v, Reader::Color, "bg");
            push_field(&mut v, Reader::IdRef, "border");
            push_field(&mut v, Reader::Str, "font");
            push_field(&mut v, Reader::Anchor, "anchor");
            push_field(&mut v, Reader::Margin, "margin");
            push_field(&mut v, Reader::Number, "gap");
            push_field(&mut v, Reader::Number, "max");
            push_field(&mut v, Reader::Number, "timeout");
            push_field(&mut v, Reader::Layer, "layer");
            push_field(&mut v, Reader::Bool, "respect_notification_icon");
            push_field(&mut v, Reader::Bool, "freeze_on_hover");
            proof {
                assert(fields_view(v@) =~= fields_of(f));
            }
        },
    }
    v
}

/// The problems of the fields `fields` of node `n`, in order: what the
/// node's builder reports.
pub fn fields_check(fields: &Vec<(Reader, &'static str)>, n: &Node) -> (r: Vec<Problem>)
    ensures
        problems_view(r@) == fields_problems(fields_view(fields@), *n),
{
    let ghost fv = fields_view(fields@);
    let mut out: Vec<Problem> = Vec::new();
    proof {
        assert(problems_view(out@) =~= Seq::<ProblemView>::empty());
    }
    let mut i: usize = 0;
    while i < fields.len()
        invariant
            i <= fields@.len(),
            fv == fields_view(fields@),
            problems_view(out@) == fields_problems(fv.take(i as int), *n),
        decreases fields@.len() - i,
    {
        proof {
            assert(fv.take(i + 1).drop_last() =~= fv.take(i as int));
            assert(fv.take(i + 1).last() == (fields@[i as int].0, fields@[i as int].1@));
        }
        let (r, name) = fields[i];
        let mut more = reader_check(r, name, n);
        let ghost a = out@;
        let ghost b = more@;
        out.append(&mut more);
        proof {
            assert(problems_view(a + b) =~= problems_view(a) + problems_view(b));
        }
        i = i + 1;
    }
    proof {
        assert(fv.take(i as int) =~= fv);
    }
    out
}

/// The problems of the fields of node `n` built as form `f`.
pub fn form_problems(f: Form, n: &Node) -> (r: Vec<Problem>)
    ensures
        problems_view(r@) == fields_problems(fields_of(f), *n),
{
    let fs = form_fields(f);
    fields_check(&fs, n)
}


// ------------------------------------------------------------ values

/// What an element reads from one of its fields. The values of numbers,
/// sizes, offsets and font settings are not held here: of those only the
/// problems are checked.
pub enum Field {
    Bool(FieldRead<bool>),
    Color(FieldRead<Color>),
    Text(FieldRead<String>),
    Layer(FieldRead<Layer>),
    Anchor(FieldRead<Anchor>),
    Output(FieldRead<Output>),
    AlignX(FieldRead<AlignX>),
    AlignY(FieldRead<AlignY>),
    RowAlign(FieldRead<RowAlign>),
    ColAlign(FieldRead<ColAlign>),
    Ids(FieldRead<Vec<String>>),
    Unread,
}

/// A value read from the property at `k`, or its problem `kind`/`message`.
pub open spec fn literal_or<T>(r: FieldRead<T>, v: Option<T>, kind: ConfigErrorKind, message: Seq<char>, k: int) -> bool {
    match v {
        Some(x) => r matches FieldRead::Read(FieldValue::Literal(y)) && y == x,
        None => invalid_at(r, kind, message, k),
    }
}

/// Reading a property whose value must be a string naming one of a set of
/// words (`word`), or an expression.
pub open spec fn word_read<T>(es: Seq<Entry>, name: Seq<char>, r: FieldRead<T>, word: spec_fn(Seq<char>) -> Option<T>,
    kind: ConfigErrorKind, message: spec_fn(Seq<char>) -> Seq<char>, other: Option<Seq<char>>) -> bool
{
    match prop_index(es, name, 0) {
        None => r is Absent,
        Some(k) => match es[k].value {
            KdlScalar::String(t) => if has_block(t@) { expr_read(r, t@) } else { literal_or(r, word(t@), kind, message(t@), k) },
            _ => match other {
                Some(m) => invalid_at(r, kind, m, k),
                None => r is Absent,
            },
        },
    }
}

pub open spec fn bool_read(es: Seq<Entry>, name: Seq<char>, r: FieldRead<bool>) -> bool {
    match prop_index(es, name, 0) {
        None => r is Absent,
        Some(k) => match es[k].value {
            KdlScalar::Bool(b) => r matches FieldRead::Read(FieldValue::Literal(x)) && x == b,
            KdlScalar::String(t) => if has_block(t@) { expr_read(r, t@) } else {
                invalid_at(r, ConfigErrorKind::InvalidBool, bool_message(), k)
            },
            _ => invalid_at(r, ConfigErrorKind::InvalidBool, bool_message(), k),
        },
    }
}

pub open spec fn color_read(es: Seq<Entry>, name: Seq<char>, r: FieldRead<Color>) -> bool {
    match prop_index(es, name, 0) {
        None => r is Absent,
        Some(k) => match color_text(es[k].value) {
            None => invalid_at(r, ConfigErrorKind::InvalidColor, color_message(), k),
            Some(t) => if has_block(t) { expr_read(r, t) } else {
                literal_or(r, spec_color(t), ConfigErrorKind::InvalidColor, color_message(), k)
            },
        },
    }
}

pub open spec fn output_read(es: Seq<Entry>, name: Seq<char>, r: FieldRead<Output>) -> bool {
    match prop_index(es, name, 0) {
        None => r is Absent,
        Some(k) => match es[k].value {
            KdlScalar::String(t) => if has_block(t@) { expr_read(r, t@) } else {
                r matches FieldRead::Read(FieldValue::Literal(o)) && output_named(o, t@)
            },
            _ => invalid_at(r, ConfigErrorKind::InvalidEnumValue, "invalid output value, expected a string or `last`"@, k),
        },
    }
}

pub open spec fn ids_read(n: Node, r: FieldRead<Vec<String>>) -> bool {
    match n.children {
        None => r is Absent,
        Some(cs) => match children_index(cs@, 0) {
            None => r is Absent,
            Some(k) => if positional_strings(cs@[k].entries@).len() == 0 {
                invalid_at(r, ConfigErrorKind::EmptyChildrenList, "children requires at least one id"@, k)
            } else {
                r matches FieldRead::Read(FieldValue::Literal(ids))
                    && ids@.len() == positional_strings(cs@[k].entries@).len()
                    && forall|i: int| 0 <= i < ids@.len() ==> (#[trigger] ids@[i])@ == positional_strings(cs@[k].entries@)[i]
            },
        },
    }
}

/// What reading field `name` of node `n` with `r` gives.
pub open spec fn field_read(r: Reader, name: Seq<char>, n: Node, f: Field) -> bool {
    let es = n.entries@;
    match r {
        Reader::Bool => f matches Field::Bool(x) && bool_read(es, name, x),
        Reader::Color => f matches Field::Color(x) && color_read(es, name, x),
        Reader::IdRef | Reader::Child => f matches Field::Text(x)
            && text_field_ok(es, name, "field `"@ + name + "` expects an id (string)"@, x),
        Reader::Str => f matches Field::Text(x) && text_field_ok(es, name, "field `"@ + name + "` expects a string"@, x),
        Reader::Layer => f matches Field::Layer(x) && word_read(es, name, x, |t: Seq<char>| spec_parse_layer(t),
            ConfigErrorKind::InvalidEnumValue,
            |t: Seq<char>| "invalid layer value \""@ + t + "\", expected one of: top, bottom, background, overlay"@,
            Some("invalid layer value, expected one of: top, bottom, background, overlay"@)),
        Reader::Anchor => f matches Field::Anchor(x) && match prop_index(es, name, 0) {
            None => x is Absent,
            Some(k) => match es[k].value {
                KdlScalar::String(t) => if has_block(t@) { expr_read(x, t@) } else {
                    match spec_parse_anchor(t@) {
                        Ok(a) => x matches FieldRead::Read(FieldValue::Literal(y)) && y == a,
                        Err(tok) => invalid_at(x, ConfigErrorKind::InvalidEnumValue, "invalid anchor token \""@ + tok + "\""@, k),
                    }
                },
                _ => invalid_at(x, ConfigErrorKind::InvalidEnumValue, "anchor must be a string"@, k),
            },
        },
        Reader::Output => f matches Field::Output(x) && output_read(es, name, x),
        Reader::AlignX => f matches Field::AlignX(x) && word_read(es, name, x, |t: Seq<char>| spec_align_x(t),
            ConfigErrorKind::InvalidEnumValue, |t: Seq<char>| align_x_message(), Some(align_x_message())),
        Reader::AlignY => f matches Field::AlignY(x) && word_read(es, name, x, |t: Seq<char>| spec_align_y(t),
            ConfigErrorKind::InvalidEnumValue, |t: Seq<char>| align_y_message(), Some(align_y_message())),
        Reader::RowAlign => f matches Field::RowAlign(x) && word_read(es, name, x, |t: Seq<char>| spec_row_align(t),
            ConfigErrorKind::InvalidEnumValue,
            |t: Seq<char>| "invalid align value for row, expected one of: t, c, b, top, center, bottom"@, None),
        Reader::ColAlign => f matches Field::ColAlign(x) && word_read(es, name, x, |t: Seq<char>| spec_col_align(t),
            ConfigErrorKind::InvalidEnumValue,
            |t: Seq<char>| "invalid align value for column, expected one of: l, c, r, left, center, right"@, None),
        Reader::Children => f matches Field::Ids(x) && ids_read(n, x),
        _ => f is Unread,
    }
}

/// Reads field `name` of node `n` with `r`.
pub fn read_field(r: Reader, name: &str, n: &Node) -> (f: Field)
    ensures
        field_read(r, name@, *n, f),
{
    let es = n.entries.as_slice();
    match r {
        Reader::Bool => Field::Bool(field_bool(name, es)),
        Reader::Color => Field::Color(field_color(name, es)),
        Reader::IdRef | Reader::Child => Field::Text(field_id_ref(name, es)),
        Reader::Str => Field::Text(field_string(name, es)),
        Reader::Layer => Field::Layer(field_layer(name, es)),
        Reader::Anchor => Field::Anchor(field_anchor(name, es)),
        Reader::Output => Field::Output(field_output(name, es)),
        Reader::AlignX => Field::AlignX(field_align_x(name, es)),
        Reader::AlignY => Field::AlignY(field_align_y(name, es)),
        Reader::RowAlign => Field::RowAlign(field_row_align(name, es)),
        Reader::ColAlign => Field::ColAlign(field_col_align(name, es)),
        Reader::Children => Field::Ids(field_children(n)),
        _ => Field::Unread,
    }
}

/// Builds an element or block from its node: every field its form reads,
/// in order, with what was read from it.
pub fn form_values(f: Form, n: &Node) -> (r: Vec<(&'static str, Field)>)
    ensures
        r@.len() == fields_of(f).len(),
        forall|k: int| 0 <= k < r@.len() ==> (#[trigger] r@[k]).0@ == fields_of(f)[k].1
            && field_read(fields_of(f)[k].0, fields_of(f)[k].1, *n, r@[k].1),
{
    let fs = form_fields(f);
    let ghost fv = fields_view(fs@);
    let mut out: Vec<(&'static str, Field)> = Vec::new();
    let mut i: usize = 0;
    while i < fs.len()
        invariant
            i <= fs@.len(),
            fv == fields_view(fs@),
            fv == fields_of(f),
            out@.len() == i,
            forall|k: int| 0 <= k < i ==> (#[trigger] out@[k]).0@ == fv[k].1 && field_read(fv[k].0, fv[k].1, *n, out@[k].1),
        decreases fs@.len() - i,
    {
        let (r, name) = fs[i];
        proof {
            assert(fv[i as int] == (fs@[i as int].0, fs@[i as int].1@));
        }
        let v = read_field(r, name, n);
        out.push((name, v));
        i = i + 1;
    }
    out
}


/// The problem of a read that failed: its kind, its message and the entry
/// it is about.
pub open spec fn read_failure<T>(r: FieldRead<T>) -> Option<(ConfigErrorKind, Seq<char>, int)> {
    match r {
        FieldRead::Invalid { kind, message, at } => Some((kind, message@, at as int)),
        _ => None,
    }
}

pub open spec fn field_failure(f: Field) -> Option<(ConfigErrorKind, Seq<char>, int)> {
    match f {
        Field::Bool(r) => read_failure(r),
        Field::Color(r) => read_failure(r),
        Field::Text(r) => read_failure(r),
        Field::Layer(r) => read_failure(r),
        Field::Anchor(r) => read_failure(r),
        Field::Output(r) => read_failure(r),
        Field::AlignX(r) => read_failure(r),
        Field::AlignY(r) => read_failure(r),
        Field::RowAlign(r) => read_failure(r),
        Field::ColAlign(r) => read_failure(r),
        Field::Ids(r) => read_failure(r),
        Field::Unread => None,
    }
}

/// Where the problem of a failed read is reported: at the entry, or, for
/// the `children` block, at that child node.
pub open spec fn failure_problem(r: Reader, x: (ConfigErrorKind, Seq<char>, int)) -> ProblemView {
    let (kind, message, at) = x;
    if r is Children {
        ProblemView { kind, message, entry: None, child: Some(at) }
    } else {
        ProblemView { kind, message, entry: Some(at), child: None }
    }
}

/// A field whose read failed has that failure among its problems.
pub proof fn lemma_failure_reported(r: Reader, name: Seq<char>, n: Node, f: Field)
    requires
        field_read(r, name, n, f),
        field_failure(f) is Some,
    ensures
        reader_problems(r, name, n).contains(failure_problem(r, field_failure(f)->0)),
{
    let p = failure_problem(r, field_failure(f)->0);
    assert(reader_problems(r, name, n)[0] == p);
}

/// What the builder of an element reads and the problems it reports agree:
/// every field whose read failed is reported, with the same kind and
/// message, at the same place.
pub proof fn law_failed_reads_are_reported(f: Form, n: Node, k: int, v: Field)
    requires
        0 <= k < fields_of(f).len(),
        field_read(fields_of(f)[k].0, fields_of(f)[k].1, n, v),
        field_failure(v) is Some,
    ensures
        fields_problems(fields_of(f), n).contains(failure_problem(fields_of(f)[k].0, field_failure(v)->0)),
{
    lemma_failure_reported(fields_of(f)[k].0, fields_of(f)[k].1, n, v);
    lemma_fields_problems_include(fields_of(f), n, k);
}

proof fn lemma_fields_problems_include(fs: Seq<(Reader, Seq<char>)>, n: Node, k: int)
    requires
        0 <= k < fs.len(),
    ensures
        forall|p: ProblemView| reader_problems(fs[k].0, fs[k].1, n).contains(p) ==> #[trigger] fields_problems(fs, n).contains(p),
    decreases fs.len(),
{
    let before = fields_problems(fs.drop_last(), n);
    let last = reader_problems(fs.last().0, fs.last().1, n);
    if k < fs.len() - 1 {
        lemma_fields_problems_include(fs.drop_last(), n, k);
        assert(fs.drop_last()[k] == fs[k]);
        assert forall|p: ProblemView| reader_problems(fs[k].0, fs[k].1, n).contains(p) implies #[trigger] fields_problems(fs, n).contains(p) by {
            assert(before.contains(p));
            let j = choose|j: int| 0 <= j < before.len() && before[j] == p;
            assert((before + last)[j] == p);
        }
    } else {
        assert forall|p: ProblemView| reader_problems(fs[k].0, fs[k].1, n).contains(p) implies #[trigger] fields_problems(fs, n).contains(p) by {
            let j = choose|j: int| 0 <= j < last.len() && last[j] == p;
            assert((before + last)[before.len() + j] == p);
        }
    }
}


/// A number field takes a whole or decimal number, or an expression; a
/// field it does not set is no problem; any other value is the one error
/// `field \`<name>\` expects a number`, at that entry.
pub proof fn law_number_field(name: Seq<char>, n: Node)
    ensures
        prop_index(n.entries@, name, 0) is None ==> reader_problems(Reader::Number, name, n).len() == 0,
        prop_index(n.entries@, name, 0) matches Some(k) ==> (
            (n.entries@[k].value is Integer || n.entries@[k].value is Float) ==> reader_problems(Reader::Number, name, n).len() == 0),
        prop_index(n.entries@, name, 0) matches Some(k) ==> (
            (n.entries@[k].value is Bool || n.entries@[k].value is Null) ==> reader_problems(Reader::Number, name, n)
                == seq![ProblemView { kind: ConfigErrorKind::InvalidLengthValue, message: "field `"@ + name + "` expects a number"@,
                    entry: Some(k), child: None }]),
{
}

/// A margin or a padding written as a child node takes 1, 2 or 4 numbers,
/// a radius 1 or 4; any other count is one error about that child node.
pub proof fn law_arity(name: Seq<char>, n: Node, cs: Seq<Node>, c: int)
    requires
        prop_index(n.entries@, name, 0) is None,
        n.children matches Some(v) && v@ == cs,
        child_named(cs, name, 0) == Some(c),
    ensures
        reader_problems(Reader::Margin, name, n).len() == 0 <==> (number_count(cs[c].entries@) == 1
            || number_count(cs[c].entries@) == 2 || number_count(cs[c].entries@) == 4),
        reader_problems(Reader::Padding, name, n).len() == 0 <==> (number_count(cs[c].entries@) == 1
            || number_count(cs[c].entries@) == 2 || number_count(cs[c].entries@) == 4),
        reader_problems(Reader::Radius, name, n).len() == 0 <==> (number_count(cs[c].entries@) == 1
            || number_count(cs[c].entries@) == 4),
        number_count(cs[c].entries@) == 3 ==> reader_problems(Reader::Margin, name, n) == seq![ProblemView {
            kind: ConfigErrorKind::InvalidMarginArity, message: "margin accepts 1, 2, or 4 values"@, entry: None, child: Some(c) }],
        number_count(cs[c].entries@) == 2 ==> reader_problems(Reader::Radius, name, n) == seq![ProblemView {
            kind: ConfigErrorKind::InvalidRadiusArity, message: "radius accepts 1 or 4 values"@, entry: None, child: Some(c) }],
{
}

/// An offset written as a child node takes exactly two numbers.
pub proof fn law_offset(name: Seq<char>, n: Node, cs: Seq<Node>, c: int)
    requires
        n.children matches Some(v) && v@ == cs,
        child_named(cs, name, 0) == Some(c),
    ensures
        reader_problems(Reader::Offset, name, n).len() == 0 <==> number_count(cs[c].entries@) == 2,
{
}

/// How many numbers a run of entries holds: its positional numbers.
pub proof fn law_number_count(es: Seq<Entry>, e: Entry)
    ensures
        number_count(Seq::<Entry>::empty()) == 0,
        number_count(es.push(e)) == number_count(es) + (if e.name is None && (e.value is Integer || e.value is Float) { 1int } else { 0int }),
{
    assert(es.push(e).drop_last() =~= es);
}

} // verus!

//! Checks on the surfaces a configuration asks for.

use vstd::prelude::*;
use crate::config::types::Anchor;
use crate::config::{ConfigError, ConfigErrorKind, Severity};
use crate::config::math::evaluator::{Operand, OperandView};
use crate::number::{decimal_of, law_decimal_round_trip, parse_i128, spec_parse_i128};
use crate::text::{owned, push_str, str_eq};

verus! {

pub open spec fn missing_width(name: Seq<char>) -> Seq<char> {
    "widget \""@ + name + "\": anchor uses only one of left/right but w is not set; set w, or anchor t/b only to span the full width"@
}

pub open spec fn width_conflict(name: Seq<char>) -> Seq<char> {
    "widget \""@ + name + "\": w is set but anchor spans both left and right; remove w or one of the anchors"@
}

pub open spec fn missing_height(name: Seq<char>) -> Seq<char> {
    "widget \""@ + name + "\": anchor uses only one of top/bottom but h is not set; set h, or anchor l/r only to span the full height"@
}

pub open spec fn height_conflict(name: Seq<char>) -> Seq<char> {
    "widget \""@ + name + "\": h is set but anchor spans both top and bottom; remove h or one of the anchors"@
}

/// The problems of one widget's surface, in this order: a width is needed
/// (anchored to exactly one of left/right with no width), a width conflicts
/// (anchored to both with a width), and the same two for the height. A
/// widget without an anchor has none.
pub open spec fn spec_surface_errors(name: Seq<char>, anchor: Option<Anchor>, w: u32, h: u32)
    -> Seq<(ConfigErrorKind, Seq<char>)>
{
    match anchor {
        None => seq![],
        Some(a) => {
            let e1: Seq<(ConfigErrorKind, Seq<char>)> = if w == 0 && (a.left != a.right) {
                seq![(ConfigErrorKind::MissingSizeAnchor, missing_width(name))]
            } else { seq![] };
            let e2: Seq<(ConfigErrorKind, Seq<char>)> = if w > 0 && a.left && a.right {
                seq![(ConfigErrorKind::AnchorConflict, width_conflict(name))]
            } else { seq![] };
            let e3: Seq<(ConfigErrorKind, Seq<char>)> = if h == 0 && (a.top != a.bottom) {
                seq![(ConfigErrorKind::MissingSizeAnchor, missing_height(name))]
            } else { seq![] };
            let e4: Seq<(ConfigErrorKind, Seq<char>)> = if h > 0 && a.top && a.bottom {
                seq![(ConfigErrorKind::AnchorConflict, height_conflict(name))]
            } else { seq![] };
            e1 + e2 + e3 + e4
        },
    }
}

fn widget_message(name: &str, tail: &str) -> (r: String)
    ensures
        r@ == "widget \""@ + name@ + tail@,
{
    let mut m = owned("widget \"");
    push_str(&mut m, name);
    push_str(&mut m, tail);
    m
}

/// The problems of the surface of widget `name`, given its anchor and its
/// width and height in whole pixels (0 when unset).
pub fn surface_errors(name: &str, anchor: Option<Anchor>, w: u32, h: u32) -> (r: Vec<(ConfigErrorKind, String)>)
    ensures
        r@.len() == spec_surface_errors(name@, anchor, w, h).len(),
        forall|k: int| 0 <= k < r@.len() ==> (#[trigger] r@[k]).0 == spec_surface_errors(name@, anchor, w, h)[k].0
            && r@[k].1@ == spec_surface_errors(name@, anchor, w, h)[k].1,
{
    let mut out: Vec<(ConfigErrorKind, String)> = Vec::new();
    let a = match anchor {
        None => {
            return out;
        },
        Some(a) => a,
    };
    let ghost n = name@;
    let ghost e1: Seq<(ConfigErrorKind, Seq<char>)> = if w == 0 && (a.left != a.right) {
        seq![(ConfigErrorKind::MissingSizeAnchor, missing_width(n))]
    } else { seq![] };
    let ghost e2: Seq<(ConfigErrorKind, Seq<char>)> = if w > 0 && a.left && a.right {
        seq![(ConfigErrorKind::AnchorConflict, width_conflict(n))]
    } else { seq![] };
    let ghost e3: Seq<(ConfigErrorKind, Seq<char>)> = if h == 0 && (a.top != a.bottom) {
        seq![(ConfigErrorKind::MissingSizeAnchor, missing_height(n))]
    } else { seq![] };
    let ghost e4: Seq<(ConfigErrorKind, Seq<char>)> = if h > 0 && a.top && a.bottom {
        seq![(ConfigErrorKind::AnchorConflict, height_conflict(n))]
    } else { seq![] };
    if w == 0 && (a.left != a.right) {
        out.push((ConfigErrorKind::MissingSizeAnchor, widget_message(name,
            "\": anchor uses only one of left/right but w is not set; set w, or anchor t/b only to span the full width")));
    }
    let ghost o1 = out@;
    assert(o1.len() == e1.len());
    if w > 0 && a.left && a.right {
        out.push((ConfigErrorKind::AnchorConflict, widget_message(name,
            "\": w is set but anchor spans both left and right; remove w or one of the anchors")));
    }
    let ghost o2 = out@;
    assert(o2.len() == (e1 + e2).len());
    if h == 0 && (a.top != a.bottom) {
        out.push((ConfigErrorKind::MissingSizeAnchor, widget_message(name,
            "\": anchor uses only one of top/bottom but h is not set; set h, or anchor l/r only to span the full height")));
    }
    let ghost o3 = out@;
    assert(o3.len() == (e1 + e2 + e3).len());
    if h > 0 && a.top && a.bottom {
        out.push((ConfigErrorKind::AnchorConflict, widget_message(name,
            "\": h is set but anchor spans both top and bottom; remove h or one of the anchors")));
    }
    proof {
        let s = e1 + e2 + e3 + e4;
        assert(s == spec_surface_errors(name@, anchor, w, h));
        assert forall|k: int| 0 <= k < out@.len() implies (#[trigger] out@[k]).0 == s[k].0 && out@[k].1@ == s[k].1 by {
            assert(e1.len() <= 1 && e2.len() <= 1 && e3.len() <= 1 && e4.len() <= 1);
        }
    }
    out
}


/// A widget as the surface check sees it: its name, its anchor, and its
/// width and height in whole pixels (0 when unset).
pub struct SurfaceSpec {
    pub name: String,
    pub anchor: Option<Anchor>,
    pub w: u32,
    pub h: u32,
}

/// A problem with the surface of widget number `widget`.
pub struct SurfaceIssue {
    pub kind: ConfigErrorKind,
    pub severity: Severity,
    pub message: String,
    pub widget: usize,
}

pub struct SurfaceIssueView {
    pub kind: ConfigErrorKind,
    pub severity: Severity,
    pub message: Seq<char>,
    pub widget: int,
}

pub open spec fn surface_issue_view(i: SurfaceIssue) -> SurfaceIssueView {
    SurfaceIssueView { kind: i.kind, severity: i.severity, message: i.message@, widget: i.widget as int }
}

pub open spec fn surface_issues_view(s: Seq<SurfaceIssue>) -> Seq<SurfaceIssueView> {
    s.map_values(|i: SurfaceIssue| surface_issue_view(i))
}

/// The problems of widget number `i`, each an error.
pub open spec fn widget_issues(ps: Seq<(ConfigErrorKind, Seq<char>)>, i: int) -> Seq<SurfaceIssueView> {
    ps.map_values(|p: (ConfigErrorKind, Seq<char>)| SurfaceIssueView { kind: p.0, severity: Severity::Error, message: p.1, widget: i })
}

/// The problems of the surfaces of all widgets, widget by widget.
pub open spec fn spec_validate_surfaces(ws: Seq<SurfaceSpec>) -> Seq<SurfaceIssueView>
    decreases ws.len(),
{
    if ws.len() == 0 {
        seq![]
    } else {
        let i = ws.len() - 1;
        spec_validate_surfaces(ws.drop_last()) + widget_issues(spec_surface_errors(ws[i].name@, ws[i].anchor, ws[i].w, ws[i].h), i)
    }
}

/// Checks the surfaces of all widgets. Every problem found is an error.
pub fn validate_surfaces(widgets: &Vec<SurfaceSpec>) -> (r: Vec<SurfaceIssue>)
    ensures
        surface_issues_view(r@) == spec_validate_surfaces(widgets@),
        forall|k: int| 0 <= k < r@.len() ==> (#[trigger] r@[k]).severity == Severity::Error,
{
    let mut out: Vec<SurfaceIssue> = Vec::new();
    let mut i: usize = 0;
    proof {
        assert(surface_issues_view(out@) =~= spec_validate_surfaces(widgets@.take(0)));
    }
    while i < widgets.len()
        invariant
            i <= widgets@.len(),
            surface_issues_view(out@) == spec_validate_surfaces(widgets@.take(i as int)),
        decreases widgets@.len() - i,
    {
        let w = &widgets[i];
        let es = surface_errors(w.name.as_str(), w.anchor, w.w, w.h);
        let ghost ps = spec_surface_errors(w.name@, w.anchor, w.w, w.h);
        let ghost before = surface_issues_view(out@);
        let mut j: usize = 0;
        while j < es.len()
            invariant
                j <= es@.len(),
                es@.len() == ps.len(),
                forall|k: int| 0 <= k < es@.len() ==> (#[trigger] es@[k]).0 == ps[k].0 && es@[k].1@ == ps[k].1,
                surface_issues_view(out@) == before + widget_issues(ps, i as int).take(j as int),
            decreases es@.len() - j,
        {
            let ghost o = out@;
            out.push(SurfaceIssue { kind: es[j].0, severity: Severity::Error, message: es[j].1.clone(), widget: i });
            proof {
                assert(surface_issues_view(out@) =~= surface_issues_view(o).push(surface_issue_view(out@[o.len() as int])));
                assert(widget_issues(ps, i as int).take(j + 1) =~= widget_issues(ps, i as int).take(j as int).push(
                    widget_issues(ps, i as int)[j as int]));
            }
            j = j + 1;
        }
        proof {
            assert(widget_issues(ps, i as int).take(j as int) =~= widget_issues(ps, i as int));
            assert(widgets@.take(i + 1).drop_last() =~= widgets@.take(i as int));
            assert(widgets@.take(i + 1)[i as int] == widgets@[i as int]);
        }
        i = i + 1;
    }
    proof {
        assert(widgets@.take(i as int) =~= widgets@);
        law_surface_problems_are_errors(widgets@);
        assert forall|k: int| 0 <= k < out@.len() implies (#[trigger] out@[k]).severity == Severity::Error by {
            assert(surface_issues_view(out@)[k] == surface_issue_view(out@[k]));
        }
    }
    out
}

/// Every problem the surface check finds is an error, never a warning.
pub proof fn law_surface_problems_are_errors(ws: Seq<SurfaceSpec>)
    ensures
        forall|k: int| 0 <= k < spec_validate_surfaces(ws).len() ==> (#[trigger] spec_validate_surfaces(ws)[k]).severity
            == Severity::Error,
    decreases ws.len(),
{
    if ws.len() > 0 {
        law_surface_problems_are_errors(ws.drop_last());
    }
}

/// A value given on the command line, as `iwwc update` reads it.
#[derive(Debug, Clone, PartialEq, Eq)]
pub enum RawValue {
    Int(i128),
    /// A decimal number: the text, read as a floating-point number by the
    /// caller.
    Decimal,
    Bool(bool),
    Str(String),
}

pub enum RawValueView {
    Int(int),
    Decimal,
    Bool(bool),
    Str(Seq<char>),
}

impl View for RawValue {
    type V = RawValueView;

    open spec fn view(&self) -> RawValueView {
        match self {
            RawValue::Int(i) => RawValueView::Int(*i as int),
            RawValue::Decimal => RawValueView::Decimal,
            RawValue::Bool(b) => RawValueView::Bool(*b),
            RawValue::Str(s) => RawValueView::Str(s@),
        }
    }
}

/// How a raw value is read: an integer, else a decimal, else a boolean
/// (`true`, `#true`, `false`, `#false`), else a string.
pub open spec fn spec_parse_value(raw: Seq<char>, is_decimal: bool) -> RawValueView {
    match spec_parse_i128(raw) {
        Some(i) => RawValueView::Int(i as int),
        None => if is_decimal {
            RawValueView::Decimal
        } else if raw == "#true"@ || raw == "true"@ {
            RawValueView::Bool(true)
        } else if raw == "#false"@ || raw == "false"@ {
            RawValueView::Bool(false)
        } else {
            RawValueView::Str(raw)
        },
    }
}

/// Reads a raw value; `is_decimal` tells whether it reads as a
/// floating-point number.
pub fn parse_value(raw: &str, is_decimal: bool) -> (r: RawValue)
    ensures
        r@ == spec_parse_value(raw@, is_decimal),
{
    match parse_i128(raw) {
        Some(i) => return RawValue::Int(i),
        None => {},
    }
    if is_decimal {
        RawValue::Decimal
    } else if str_eq(raw, "#true") || str_eq(raw, "true") {
        RawValue::Bool(true)
    } else if str_eq(raw, "#false") || str_eq(raw, "false") {
        RawValue::Bool(false)
    } else {
        RawValue::Str(owned(raw))
    }
}

/// The new value of a variable that `iwwc update` sets: `toggle` flips a
/// boolean; anything else is read as a raw value.
pub open spec fn spec_update_value(current: OperandView, raw: Seq<char>, is_decimal: bool) -> RawValueView {
    match current {
        OperandView::Bool(b) => if raw == "toggle"@ { RawValueView::Bool(!b) } else { spec_parse_value(raw, is_decimal) },
        _ => spec_parse_value(raw, is_decimal),
    }
}

pub fn update_value(current: &Operand, raw: &str, is_decimal: bool) -> (r: RawValue)
    ensures
        r@ == spec_update_value(current@, raw@, is_decimal),
{
    match current {
        Operand::Bool(b) => if str_eq(raw, "toggle") {
            return RawValue::Bool(!*b);
        },
        _ => {},
    }
    parse_value(raw, is_decimal)
}

/// Toggling a boolean twice gives it back.
pub proof fn law_toggle_twice(b: bool, is_decimal: bool)
    ensures
        spec_update_value(OperandView::Bool(b), "toggle"@, is_decimal) == RawValueView::Bool(!b),
        spec_update_value(OperandView::Bool(!b), "toggle"@, is_decimal) == RawValueView::Bool(b),
{
}

/// The message for `iwwc update` of a variable that is not declared.
pub fn unknown_variable_message(name: &str) -> (r: String)
    ensures
        r@ == "variable \""@ + name@ + "\" is not defined"@,
{
    let mut m = owned("variable \"");
    push_str(&mut m, name);
    push_str(&mut m, "\" is not defined");
    m
}


/// Why `iwwc update` was refused.
pub enum UpdateError {
    /// The configuration declares no variable of that name.
    UnknownVariable(String),
    /// The configuration with the new value does not resolve.
    Invalid(Vec<ConfigError>),
}

/// The configuration in force: what was declared (`C`), what was resolved
/// from it (`R`), and the warnings of that resolution. It is replaced only
/// by a candidate that resolved; a refused change leaves it as it was.
pub struct Store<C, R> {
    pub config: C,
    pub resolved: R,
    pub warnings: Vec<ConfigError>,
}

/// Why a reload was refused: the file could not be read (the lines say
/// why), or its configuration has problems.
pub enum ReloadError {
    Load(Vec<String>),
    Invalid(Vec<ConfigError>),
}

impl<C, R> Store<C, R> {
    /// A store of `config` when its resolution succeeded (`resolved`, with
    /// the warnings `messages`); the errors `messages` otherwise.
    pub fn new(config: C, resolved: Option<R>, messages: Vec<ConfigError>) -> (r: Result<Store<C, R>, Vec<ConfigError>>)
        ensures
            match resolved {
                Some(x) => r matches Ok(s) && s.config == config && s.resolved == x && s.warnings@ == messages@,
                None => r matches Err(m) && m@ == messages@,
            },
    {
        match resolved {
            Some(x) => Ok(Store { config, resolved: x, warnings: messages }),
            None => Err(messages),
        }
    }

    pub fn resolved(&self) -> (r: &R)
        ensures
            *r == self.resolved,
    {
        &self.resolved
    }

    pub fn warnings(&self) -> (r: &[ConfigError])
        ensures
            r@ == self.warnings@,
    {
        self.warnings.as_slice()
    }

    /// Takes a new resolution of the same configuration when it succeeded;
    /// keeps everything when it did not.
    pub fn refresh(&mut self, resolved: Option<R>, messages: Vec<ConfigError>)
        ensures
            match resolved {
                Some(x) => final(self).config == old(self).config && final(self).resolved == x
                    && final(self).warnings@ == messages@,
                None => *final(self) == *old(self),
            },
    {
        match resolved {
            Some(x) => {
                self.resolved = x;
                self.warnings = messages;
            },
            None => {},
        }
    }

    /// Sets variable `name`. `declared` tells whether the configuration
    /// declares it; `candidate` is the configuration with the new value, and
    /// `resolved`/`messages` its resolution. Unless it succeeds, the store
    /// is left as it was.
    pub fn update(&mut self, name: &str, declared: bool, candidate: C, resolved: Option<R>, messages: Vec<ConfigError>)
        -> (r: Result<(), UpdateError>)
        ensures
            !declared ==> (r matches Err(UpdateError::UnknownVariable(n)) && n@ == name@ && *final(self) == *old(self)),
            declared && resolved is None ==> (r matches Err(UpdateError::Invalid(m)) && m@ == messages@
                && *final(self) == *old(self)),
            declared && resolved is Some ==> (r is Ok && final(self).config == candidate
                && final(self).resolved == resolved->0 && final(self).warnings@ == messages@),
    {
        if !declared {
            return Err(UpdateError::UnknownVariable(owned(name)));
        }
        match resolved {
            Some(x) => {
                self.config = candidate;
                self.resolved = x;
                self.warnings = messages;
                Ok(())
            },
            None => Err(UpdateError::Invalid(messages)),
        }
    }

    /// Replaces the store by one built from a file read anew: `loaded` is
    /// what reading it gave (the reader's warnings, or the lines that say
    /// why it could not be read), `candidate` the store built from it, and
    /// `surface` the problems of that store's surfaces. The new store is
    /// taken only when all three succeeded, and then the reader's warnings
    /// come back (those of the resolution are the new store's warnings);
    /// otherwise the store is left as it was.
    pub fn reload(&mut self, loaded: Result<Vec<ConfigError>, Vec<String>>, candidate: Result<Store<C, R>, Vec<ConfigError>>,
        surface: Vec<ConfigError>) -> (r: Result<Vec<ConfigError>, ReloadError>)
        ensures
            match loaded {
                Err(lines) => r matches Err(ReloadError::Load(l)) && l@ == lines@ && *final(self) == *old(self),
                Ok(warns) => match candidate {
                    Err(errs) => r matches Err(ReloadError::Invalid(e)) && e@ == errs@ && *final(self) == *old(self),
                    Ok(c) => if surface@.len() > 0 {
                        r matches Err(ReloadError::Invalid(e)) && e@ == surface@ && *final(self) == *old(self)
                    } else {
                        r matches Ok(w) && w@ == warns@ && final(self).config == c.config
                            && final(self).resolved == c.resolved && final(self).warnings@ == c.warnings@
                    },
                },
            },
    {
        let warns = match loaded {
            Err(lines) => return Err(ReloadError::Load(lines)),
            Ok(w) => w,
        };
        let c = match candidate {
            Err(errs) => return Err(ReloadError::Invalid(errs)),
            Ok(c) => c,
        };
        if surface.len() > 0 {
            return Err(ReloadError::Invalid(surface));
        }
        *self = c;
        Ok(warns)
    }
}


/// A surface needs a width exactly when it is attached to one of the left
/// and right edges but not both and has none, and its width conflicts
/// exactly when it is attached to both and has one; the same of the height
/// with the top and bottom edges. A surface with no anchor has no problem.
pub proof fn law_surface_rules(name: Seq<char>, a: Anchor, w: u32, h: u32)
    ensures
        spec_surface_errors(name, None, w, h).len() == 0,
        spec_surface_errors(name, Some(a), w, h).contains((ConfigErrorKind::MissingSizeAnchor, missing_width(name)))
            <==> (w == 0 && (a.left && !a.right || a.right && !a.left)),
        spec_surface_errors(name, Some(a), w, h).contains((ConfigErrorKind::AnchorConflict, width_conflict(name)))
            <==> (w > 0 && a.left && a.right),
        spec_surface_errors(name, Some(a), w, h).contains((ConfigErrorKind::MissingSizeAnchor, missing_height(name)))
            <==> (h == 0 && (a.top && !a.bottom || a.bottom && !a.top)),
        spec_surface_errors(name, Some(a), w, h).contains((ConfigErrorKind::AnchorConflict, height_conflict(name)))
            <==> (h > 0 && a.top && a.bottom),
        forall|k: int| 0 <= k < spec_surface_errors(name, Some(a), w, h).len() ==> {
            let p = #[trigger] spec_surface_errors(name, Some(a), w, h)[k];
            p == (ConfigErrorKind::MissingSizeAnchor, missing_width(name)) || p == (ConfigErrorKind::AnchorConflict, width_conflict(name))
                || p == (ConfigErrorKind::MissingSizeAnchor, missing_height(name)) || p == (ConfigErrorKind::AnchorConflict, height_conflict(name))
        },
{
    let mw = missing_width(name);
    let wc = width_conflict(name);
    let mh = missing_height(name);
    let hc = height_conflict(name);
    reveal_strlit("widget \"");
    reveal_strlit("\": anchor uses only one of left/right but w is not set; set w, or anchor t/b only to span the full width");
    reveal_strlit("\": w is set but anchor spans both left and right; remove w or one of the anchors");
    reveal_strlit("\": anchor uses only one of top/bottom but h is not set; set h, or anchor l/r only to span the full height");
    reveal_strlit("\": h is set but anchor spans both top and bottom; remove h or one of the anchors");
    let pre = "widget \""@ + name;
    assert(mw != wc && mw != mh && mw != hc && wc != mh && wc != hc && mh != hc) by {
        let k = pre.len() as int;
        assert(mw[k + 3] == 'a');
        assert(mh[k + 3] == 'a');
        assert(wc[k + 3] == 'w');
        assert(hc[k + 3] == 'h');
        assert(mw[k + 27] == 'l');
        assert(mh[k + 27] == 't');
    }
    let e = spec_surface_errors(name, Some(a), w, h);
    let e1: Seq<(ConfigErrorKind, Seq<char>)> = if w == 0 && (a.left != a.right) { seq![(ConfigErrorKind::MissingSizeAnchor, mw)] } else { seq![] };
    let e2: Seq<(ConfigErrorKind, Seq<char>)> = if w > 0 && a.left && a.right { seq![(ConfigErrorKind::AnchorConflict, wc)] } else { seq![] };
    let e3: Seq<(ConfigErrorKind, Seq<char>)> = if h == 0 && (a.top != a.bottom) { seq![(ConfigErrorKind::MissingSizeAnchor, mh)] } else { seq![] };
    let e4: Seq<(ConfigErrorKind, Seq<char>)> = if h > 0 && a.top && a.bottom { seq![(ConfigErrorKind::AnchorConflict, hc)] } else { seq![] };
    assert(e == e1 + e2 + e3 + e4);
    assert forall|p: (ConfigErrorKind, Seq<char>)| e.contains(p) <==> (e1.contains(p) || e2.contains(p) || e3.contains(p) || e4.contains(p)) by {
        if e.contains(p) {
            let j = choose|j: int| 0 <= j < e.len() && e[j] == p;
            if j < e1.len() { assert(e1[j] == p); }
            else if j < e1.len() + e2.len() { assert(e2[j - e1.len()] == p); }
            else if j < e1.len() + e2.len() + e3.len() { assert(e3[j - e1.len() - e2.len()] == p); }
            else { assert(e4[j - e1.len() - e2.len() - e3.len()] == p); }
        }
        if e1.contains(p) { assert(e[0] == p); }
        if e2.contains(p) { assert(e[e1.len() as int] == p); }
        if e3.contains(p) { assert(e[(e1.len() + e2.len()) as int] == p); }
        if e4.contains(p) { assert(e[(e1.len() + e2.len() + e3.len()) as int] == p); }
    }
    let ps = seq![(ConfigErrorKind::MissingSizeAnchor, mw), (ConfigErrorKind::AnchorConflict, wc),
        (ConfigErrorKind::MissingSizeAnchor, mh), (ConfigErrorKind::AnchorConflict, hc)];
    assert forall|i: int| 0 <= i < 4 implies (e.contains(#[trigger] ps[i]) <==> (e1.contains(ps[i]) || e2.contains(ps[i])
        || e3.contains(ps[i]) || e4.contains(ps[i]))) by {}
    assert forall|i: int, q: Seq<(ConfigErrorKind, Seq<char>)>| 0 <= i < 4 && q.len() <= 1 implies
        (#[trigger] q.contains(ps[i]) <==> (q.len() == 1 && q[0] == ps[i])) by {
        if q.len() == 1 && q[0] == ps[i] {
            assert(q.contains(ps[i]));
        }
    }
    assert(e.contains(ps[0]) == (e1.contains(ps[0]) || e2.contains(ps[0]) || e3.contains(ps[0]) || e4.contains(ps[0])));
    assert(e.contains(ps[1]) == (e1.contains(ps[1]) || e2.contains(ps[1]) || e3.contains(ps[1]) || e4.contains(ps[1])));
    assert(e.contains(ps[2]) == (e1.contains(ps[2]) || e2.contains(ps[2]) || e3.contains(ps[2]) || e4.contains(ps[2])));
    assert(e.contains(ps[3]) == (e1.contains(ps[3]) || e2.contains(ps[3]) || e3.contains(ps[3]) || e4.contains(ps[3])));
    assert forall|k: int| 0 <= k < e.len() implies {
        let p = #[trigger] e[k];
        p == (ConfigErrorKind::MissingSizeAnchor, mw) || p == (ConfigErrorKind::AnchorConflict, wc)
            || p == (ConfigErrorKind::MissingSizeAnchor, mh) || p == (ConfigErrorKind::AnchorConflict, hc)
    } by {
        assert(e.contains(e[k]));
    }
}


/// A value given on the command line keeps its type: a whole number
/// written in decimal is that integer (negative ones too), `true`/`#true`
/// and `false`/`#false` are booleans, and a decimal is a decimal.
pub proof fn law_parse_value_types(n: nat, raw: Seq<char>)
    ensures
        n <= i128::MAX ==> spec_parse_value(decimal_of(n), false) == RawValueView::Int(n as int),
        n <= i128::MAX ==> spec_parse_value(seq!['-'] + decimal_of(n), false) == RawValueView::Int(-n),
        spec_parse_value("true"@, false) == RawValueView::Bool(true),
        spec_parse_value("#true"@, false) == RawValueView::Bool(true),
        spec_parse_value("false"@, false) == RawValueView::Bool(false),
        spec_parse_value("#false"@, false) == RawValueView::Bool(false),
        spec_parse_i128(raw) is None ==> spec_parse_value(raw, true) == RawValueView::Decimal,
{
    law_decimal_round_trip(n);
    reveal_strlit("true");
    reveal_strlit("#true");
    reveal_strlit("false");
    reveal_strlit("#false");
    assert(spec_parse_i128("true"@) is None);
    assert(spec_parse_i128("#true"@) is None);
    assert(spec_parse_i128("false"@) is None);
    assert(spec_parse_i128("#false"@) is None);
    assert("true"@ != "#true"@ && "false"@ != "#false"@ && "false"@ != "true"@ && "false"@ != "#true"@) by {
        assert("true"@[0] != "#true"@[0]);
        assert("false"@[0] != "#false"@[0]);
        assert("false"@[0] != "true"@[0]);
        assert("false"@[0] != "#true"@[0]);
    }
    assert("#false"@ != "#true"@ && "#false"@ != "true"@) by {
        assert("#false"@[1] != "#true"@[1]);
        assert("#false"@[0] != "true"@[0]);
    }
}

} // verus!

pub mod document;
pub mod fields;
pub mod math;
pub mod parser;
pub mod primitives;
pub mod reader;
pub mod resolver;
pub mod smart;
pub mod store;
pub mod types;

pub use document::parse_str;

use vstd::prelude::*;
use vstd::utf8::decode_utf8;
use crate::config::types::{line_col_after, Span};
use crate::number::{decimal, decimal_of};
use crate::text::{at_boundary, join_path, joined, owned, push_str, utf8};

verus! {

#[derive(Debug, Clone, Copy, PartialEq, Eq, Structural)]
pub enum Severity {
    Error,
    Warning,
}

#[derive(Debug, Clone, Copy, PartialEq, Eq, Structural)]
pub enum ConfigErrorKind {
    Syntax,
    UnknownNode,
    MissingRequiredField,
    InvalidEnumValue,
    InvalidColor,
    InvalidLengthValue,
    InvalidPaddingArity,
    InvalidMarginArity,
    InvalidRadiusArity,
    InvalidOffsetArity,
    AnchorConflict,
    AnchorTooMany,
    EmptyChildrenList,
    DuplicateVariable,
    DuplicateElement,
    InvalidBool,
    InvalidFieldType,
    PortionMissingInt,
    VariableMissingValue,
    Expression,
    UnresolvedReference,
    CircularReference,
    TypeCoercion,
    UnusedElement,
    UnusedVariable,
    MissingSizeAnchor,
    Import,
}

/// A problem found in a configuration, with where it is.
#[derive(Debug, Clone)]
pub struct ConfigError {
    pub kind: ConfigErrorKind,
    pub span: Span,
    pub message: String,
    pub severity: Severity,
}

pub open spec fn severity_tag(s: Severity) -> Seq<char> {
    match s {
        Severity::Error => "error"@,
        Severity::Warning => "warning"@,
    }
}

/// The position of a span as `line:col`, with the label in front:
/// `label:line:col`.
pub open spec fn located(span: Span) -> Seq<char> {
    let lc = line_col_after(decode_utf8(utf8(span.source.text@).take(span.clipped())));
    span.source.label@ + ":"@ + decimal_of(lc.0 as nat) + ":"@ + decimal_of(lc.1 as nat)
}

/// A span whose position can be computed.
pub open spec fn span_ok(span: Span) -> bool {
    &&& at_boundary(utf8(span.source.text@), span.clipped())
    &&& utf8(span.source.text@).len() < usize::MAX
}

/// `label:line:col` of a span.
pub fn location(span: &Span) -> (r: String)
    requires
        span_ok(*span),
    ensures
        r@ == located(*span),
{
    let (line, col) = span.line_col();
    let mut out = span.source.label.clone();
    push_str(&mut out, ":");
    let l = decimal(line);
    push_str(&mut out, l.as_str());
    push_str(&mut out, ":");
    let c = decimal(col);
    push_str(&mut out, c.as_str());
    out
}

impl ConfigError {
    /// The one-line report `label:line:col: error: message` (or `warning`).
    pub fn render(&self) -> (r: String)
        requires
            span_ok(self.span),
        ensures
            r@ == located(self.span) + ": "@ + severity_tag(self.severity) + ": "@ + self.message@,
    {
        let mut out = location(&self.span);
        push_str(&mut out, ": ");
        let tag = match self.severity {
            Severity::Error => "error",
            Severity::Warning => "warning",
        };
        push_str(&mut out, tag);
        push_str(&mut out, ": ");
        push_str(&mut out, self.message.as_str());
        out
    }
}


pub open spec fn nonempty(v: Option<Seq<char>>) -> Option<Seq<char>> {
    match v {
        Some(x) => if x.len() > 0 { Some(x) } else { None },
        None => None,
    }
}

/// Where a configuration file is looked for, in order: under
/// `$XDG_CONFIG_HOME`, under `$HOME/.config`, and under
/// `/home/$USER/.config`, each only when that variable is set and not empty.
pub open spec fn spec_candidates(xdg: Option<Seq<char>>, home: Option<Seq<char>>, user: Option<Seq<char>>) -> Seq<Seq<char>> {
    let a: Seq<Seq<char>> = match nonempty(xdg) {
        Some(x) => seq![joined(x, "iwwc/config.kdl"@)],
        None => seq![],
    };
    let b: Seq<Seq<char>> = match nonempty(home) {
        Some(h) => seq![joined(h, ".config/iwwc/config.kdl"@)],
        None => seq![],
    };
    let c: Seq<Seq<char>> = match nonempty(user) {
        Some(u) => seq!["/home/"@ + u + "/.config/iwwc/config.kdl"@],
        None => seq![],
    };
    a + b + c
}

/// The candidate configuration paths for the given values of
/// `XDG_CONFIG_HOME`, `HOME` and `USER` (`None` when unset).
pub fn config_candidates(xdg: Option<&str>, home: Option<&str>, user: Option<&str>) -> (r: Vec<String>)
    ensures
        r@.len() == spec_candidates(
            match xdg { Some(x) => Some(x@), None => None },
            match home { Some(x) => Some(x@), None => None },
            match user { Some(x) => Some(x@), None => None },
        ).len(),
        forall|k: int| 0 <= k < r@.len() ==> (#[trigger] r@[k])@ == spec_candidates(
            match xdg { Some(x) => Some(x@), None => None },
            match home { Some(x) => Some(x@), None => None },
            match user { Some(x) => Some(x@), None => None },
        )[k],
{
    let ghost xv = match xdg { Some(x) => Some(x@), None => None::<Seq<char>> };
    let ghost hv = match home { Some(x) => Some(x@), None => None::<Seq<char>> };
    let ghost uv = match user { Some(x) => Some(x@), None => None::<Seq<char>> };
    let mut out: Vec<String> = Vec::new();
    let ghost mut want: Seq<Seq<char>> = seq![];
    match xdg {
        Some(x) => if !x.is_empty() {
            proof { reveal_strlit("iwwc/config.kdl"); }
            let p = join_path(x, "iwwc/config.kdl");
            out.push(p);
            proof { want = want.push(joined(x@, "iwwc/config.kdl"@)); }
        },
        None => {},
    }
    match home {
        Some(h) => if !h.is_empty() {
            proof { reveal_strlit(".config/iwwc/config.kdl"); }
            let p = join_path(h, ".config/iwwc/config.kdl");
            out.push(p);
            proof { want = want.push(joined(h@, ".config/iwwc/config.kdl"@)); }
        },
        None => {},
    }
    match user {
        Some(u) => if !u.is_empty() {
            let mut p = owned("/home/");
            push_str(&mut p, u);
            push_str(&mut p, "/.config/iwwc/config.kdl");
            out.push(p);
            proof { want = want.push("/home/"@ + u@ + "/.config/iwwc/config.kdl"@); }
        },
        None => {},
    }
    proof {
        assert(want =~= spec_candidates(xv, hv, uv));
    }
    out
}

/// The first candidate that exists.
pub open spec fn first_existing(exists: Seq<bool>) -> Option<int>
    decreases exists.len(),
{
    if exists.len() == 0 {
        None
    } else {
        match first_existing(exists.drop_last()) {
            Some(k) => Some(k),
            None => if exists.last() { Some(exists.len() - 1) } else { None },
        }
    }
}

/// The candidates separated by `, `.
pub open spec fn comma_list(c: Seq<Seq<char>>) -> Seq<char>
    decreases c.len(),
{
    if c.len() == 0 {
        seq![]
    } else if c.len() == 1 {
        c[0]
    } else {
        comma_list(c.drop_last()) + ", "@ + c.last()
    }
}

pub open spec fn no_candidates_message() -> Seq<char> {
    "no candidate config paths available, create proper config file in default location or pass it to -c flag"@
}

/// The configuration file to use: the first candidate that exists, an
/// error when there are no candidates, and an error that lists them all
/// when none exists.
pub open spec fn spec_discover(c: Seq<Seq<char>>, exists: Seq<bool>) -> Result<Seq<char>, Seq<char>> {
    if c.len() == 0 {
        Err(no_candidates_message())
    } else {
        match first_existing(exists) {
            Some(k) => Ok(c[k]),
            None => Err("no config.kdl found, tried: "@ + comma_list(c)),
        }
    }
}

/// Picks the configuration file among `candidates`; `exists[k]` tells
/// whether `candidates[k]` names an existing file.
pub fn discover_path(candidates: &[String], exists: &[bool]) -> (r: Result<String, String>)
    requires
        exists@.len() == candidates@.len(),
    ensures
        match spec_discover(candidates@.map_values(|c: String| c@), exists@) {
            Ok(p) => r matches Ok(x) && x@ == p,
            Err(m) => r matches Err(x) && x@ == m,
        },
{
    let ghost cv = candidates@.map_values(|c: String| c@);
    if candidates.len() == 0 {
        return Err(owned("no candidate config paths available, create proper config file in default location or pass it to -c flag"));
    }
    let mut i: usize = 0;
    while i < candidates.len()
        invariant
            exists@.len() == candidates@.len(),
            cv == candidates@.map_values(|c: String| c@),
            i <= candidates@.len(),
            first_existing(exists@.take(i as int)) is None,
        decreases candidates@.len() - i,
    {
        proof {
            assert(exists@.take(i + 1).drop_last() =~= exists@.take(i as int));
        }
        if exists[i] {
            proof {
                lemma_first_existing_prefix(exists@, i as int + 1);
            }
            return Ok(candidates[i].clone());
        }
        i = i + 1;
    }
    proof {
        assert(exists@.take(i as int) =~= exists@);
    }
    let mut msg = owned("no config.kdl found, tried: ");
    let mut k: usize = 0;
    while k < candidates.len()
        invariant
            cv == candidates@.map_values(|c: String| c@),
            0 < candidates@.len(),
            k <= candidates@.len(),
            msg@ == "no config.kdl found, tried: "@ + comma_list(cv.take(k as int)),
        decreases candidates@.len() - k,
    {
        proof {
            assert(cv.take(k + 1).drop_last() =~= cv.take(k as int));
            assert(cv.take(k + 1).last() == candidates@[k as int]@);
        }
        if k > 0 {
            push_str(&mut msg, ", ");
        } else {
            assert(cv.take(0) =~= Seq::<Seq<char>>::empty());
        }
        push_str(&mut msg, candidates[k].as_str());
        proof {
            if k == 0 {
                assert(comma_list(cv.take(1)) == cv.take(1)[0]);
            }
        }
        k = k + 1;
    }
    proof {
        assert(cv.take(k as int) =~= cv);
    }
    Err(msg)
}

/// A prefix that already contains an existing candidate decides the answer.
proof fn lemma_first_existing_prefix(e: Seq<bool>, n: int)
    requires
        0 < n <= e.len(),
        first_existing(e.take(n - 1)) is None,
        e[n - 1],
    ensures
        first_existing(e) == Some(n - 1),
    decreases e.len(),
{
    if e.len() > n {
        assert(e.drop_last().take(n - 1) =~= e.take(n - 1));
        lemma_first_existing_prefix(e.drop_last(), n);
    } else {
        assert(e.take(n - 1) =~= e.drop_last());
    }
}

proof fn lemma_first_existing_least(e: Seq<bool>)
    ensures
        match first_existing(e) {
            Some(j) => 0 <= j < e.len() && e[j] && forall|i: int| 0 <= i < j ==> !#[trigger] e[i],
            None => forall|i: int| 0 <= i < e.len() ==> !#[trigger] e[i],
        },
    decreases e.len(),
{
    if e.len() > 0 {
        let d = e.drop_last();
        lemma_first_existing_least(d);
        assert forall|i: int| 0 <= i < d.len() implies #[trigger] d[i] == e[i] by {}
        match first_existing(d) {
            Some(k) => {
                assert forall|i: int| 0 <= i < k implies !#[trigger] e[i] by { assert(!d[i]); }
            },
            None => {
                assert forall|i: int| 0 <= i < e.len() - 1 implies !#[trigger] e[i] by { assert(!d[i]); }
            },
        }
    }
}

/// The configuration found from the environment is the first candidate,
/// in the order `$XDG_CONFIG_HOME/iwwc/config.kdl`,
/// `$HOME/.config/iwwc/config.kdl`, `/home/$USER/.config/iwwc/config.kdl`
/// (each only when its variable is set and not empty), that exists; with
/// no candidate the search fails with the message that says so, and when
/// none exists with the message listing every candidate.
pub proof fn law_first_existing_candidate_wins(
    xdg: Option<Seq<char>>,
    home: Option<Seq<char>>,
    user: Option<Seq<char>>,
    exists: Seq<bool>,
)
    requires
        exists.len() == spec_candidates(xdg, home, user).len(),
    ensures
        ({
            let c = spec_candidates(xdg, home, user);
            &&& c.len() == 0 ==> spec_discover(c, exists) == Err::<Seq<char>, Seq<char>>(no_candidates_message())
            &&& forall|j: int| 0 <= j < c.len() && #[trigger] exists[j] && (forall|i: int| 0 <= i < j ==> !exists[i])
                ==> spec_discover(c, exists) == Ok::<Seq<char>, Seq<char>>(c[j])
            &&& (c.len() > 0 && forall|i: int| 0 <= i < c.len() ==> !#[trigger] exists[i])
                ==> spec_discover(c, exists) == Err::<Seq<char>, Seq<char>>("no config.kdl found, tried: "@ + comma_list(c))
            &&& nonempty(xdg) matches Some(x) ==> c[0] == joined(x, "iwwc/config.kdl"@)
            &&& nonempty(xdg) is None ==> (nonempty(home) matches Some(h) ==> c[0] == joined(h, ".config/iwwc/config.kdl"@))
            &&& c.len() == (if nonempty(xdg) is Some { 1int } else { 0int }) + (if nonempty(home) is Some { 1int } else { 0int })
                + (if nonempty(user) is Some { 1int } else { 0int })
        }),
{
    let c = spec_candidates(xdg, home, user);
    lemma_first_existing_least(exists);
    assert forall|j: int| 0 <= j < c.len() && #[trigger] exists[j] && (forall|i: int| 0 <= i < j ==> !exists[i])
        implies spec_discover(c, exists) == Ok::<Seq<char>, Seq<char>>(c[j]) by {
        match first_existing(exists) {
            Some(k) => {
                if k < j { assert(!exists[k]); }
                if k > j { assert(!exists[j]); }
            },
            None => { assert(!exists[j]); },
        }
    }
    if c.len() > 0 && forall|i: int| 0 <= i < c.len() ==> !#[trigger] exists[i] {
        match first_existing(exists) {
            Some(k) => { assert(!exists[k]); },
            None => {},
        }
    }
}

} // verus!

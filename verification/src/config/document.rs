//! The top level of a configuration document: which node defines which
//! variable, pull, element or block, and what is wrong with the nodes that
//! define nothing. The first definition of a name wins; each later one is
//! reported and left out.

use vstd::prelude::*;
use crate::config::parser::{build_pull, first_positional_string, spec_build_pull, spec_first_positional, Entry, KdlScalar, Node, PullDecl};
use crate::config::primitives::duration_of_millis;
use crate::config::reader::{kdl_document, read_kdl};
use crate::config::fields::{fields_of, fields_problems, form_problems, problem_view, problems_view, Form, Problem, ProblemView};
use crate::config::{ConfigErrorKind, Severity};
use crate::text::{owned, push_str, str_eq};
use core::time::Duration;

verus! {

/// The kinds of element a document defines by id.
#[derive(Debug, Clone, Copy, PartialEq, Eq, Structural)]
pub enum ElementKind {
    Widget,
    Container,
    Style,
    Border,
    Shadow,
    Font,
    Button,
    Row,
    Column,
    Text,
}

/// The element kind a node name stands for.
pub open spec fn element_kind(name: Seq<char>) -> Option<ElementKind> {
    if name == "widget"@ {
        Some(ElementKind::Widget)
    } else if name == "container"@ {
        Some(ElementKind::Container)
    } else if name == "style"@ {
        Some(ElementKind::Style)
    } else if name == "border"@ {
        Some(ElementKind::Border)
    } else if name == "shadow"@ {
        Some(ElementKind::Shadow)
    } else if name == "font"@ {
        Some(ElementKind::Font)
    } else if name == "button"@ {
        Some(ElementKind::Button)
    } else if name == "row"@ {
        Some(ElementKind::Row)
    } else if name == "column"@ {
        Some(ElementKind::Column)
    } else if name == "text"@ {
        Some(ElementKind::Text)
    } else {
        None
    }
}

/// The node name of an element kind.
pub open spec fn kind_name(k: ElementKind) -> Seq<char> {
    match k {
        ElementKind::Widget => "widget"@,
        ElementKind::Container => "container"@,
        ElementKind::Style => "style"@,
        ElementKind::Border => "border"@,
        ElementKind::Shadow => "shadow"@,
        ElementKind::Font => "font"@,
        ElementKind::Button => "button"@,
        ElementKind::Row => "row"@,
        ElementKind::Column => "column"@,
        ElementKind::Text => "text"@,
    }
}

/// The element kind of a node name, if it names one.
pub fn element_kind_of(name: &str) -> (r: Option<ElementKind>)
    ensures
        r == element_kind(name@),
{
    proof {
        reveal_strlit("widget");
        reveal_strlit("container");
        reveal_strlit("style");
        reveal_strlit("border");
        reveal_strlit("shadow");
        reveal_strlit("font");
        reveal_strlit("button");
        reveal_strlit("row");
        reveal_strlit("column");
        reveal_strlit("text");
    }
    if str_eq(name, "widget") {
        Some(ElementKind::Widget)
    } else if str_eq(name, "container") {
        Some(ElementKind::Container)
    } else if str_eq(name, "style") {
        Some(ElementKind::Style)
    } else if str_eq(name, "border") {
        Some(ElementKind::Border)
    } else if str_eq(name, "shadow") {
        Some(ElementKind::Shadow)
    } else if str_eq(name, "font") {
        Some(ElementKind::Font)
    } else if str_eq(name, "button") {
        Some(ElementKind::Button)
    } else if str_eq(name, "row") {
        Some(ElementKind::Row)
    } else if str_eq(name, "column") {
        Some(ElementKind::Column)
    } else if str_eq(name, "text") {
        Some(ElementKind::Text)
    } else {
        None
    }
}

/// The node name of an element kind.
pub fn kind_word(k: ElementKind) -> (r: &'static str)
    ensures
        r@ == kind_name(k),
{
    proof {
        reveal_strlit("widget");
        reveal_strlit("container");
        reveal_strlit("style");
        reveal_strlit("border");
        reveal_strlit("shadow");
        reveal_strlit("font");
        reveal_strlit("button");
        reveal_strlit("row");
        reveal_strlit("column");
        reveal_strlit("text");
    }
    match k {
        ElementKind::Widget => "widget",
        ElementKind::Container => "container",
        ElementKind::Style => "style",
        ElementKind::Border => "border",
        ElementKind::Shadow => "shadow",
        ElementKind::Font => "font",
        ElementKind::Button => "button",
        ElementKind::Row => "row",
        ElementKind::Column => "column",
        ElementKind::Text => "text",
    }
}

/// A problem with a node of the document: at entry `entry` of it, or of
/// its child node `child`, when the problem is with one of those.
pub struct Issue {
    pub kind: ConfigErrorKind,
    pub severity: Severity,
    pub message: String,
    pub node: usize,
    pub entry: Option<usize>,
    pub child: Option<usize>,
}

/// A variable: its name and where its value is written (entry `entry` of
/// node `node`; no entry for the default of a pull).
pub struct VarDef {
    pub name: String,
    pub node: usize,
    pub entry: Option<usize>,
}

/// An element defined by node `node`.
pub struct ElementDef {
    pub kind: ElementKind,
    pub id: String,
    pub node: usize,
}

/// A pull defined by node `node`.
pub struct PullDef {
    pub name: String,
    pub decl: PullDecl,
    pub node: usize,
}

/// What the top level of a document defines, in document order, and the
/// problems found there. The fields of the elements and blocks are read
/// from the nodes these definitions point at.
pub struct Outline {
    pub vars: Vec<VarDef>,
    pub pulls: Vec<PullDef>,
    pub elements: Vec<ElementDef>,
    pub notification: Option<usize>,
    pub apptray: Option<usize>,
    pub icon_theme: Option<String>,
    pub issues: Vec<Issue>,
}

pub struct IssueView {
    pub kind: ConfigErrorKind,
    pub severity: Severity,
    pub message: Seq<char>,
    pub node: int,
    pub entry: Option<int>,
    pub child: Option<int>,
}

pub struct VarDefView {
    pub name: Seq<char>,
    pub node: int,
    pub entry: Option<int>,
}

pub struct ElementDefView {
    pub kind: ElementKind,
    pub id: Seq<char>,
    pub node: int,
}

pub struct PullDefView {
    pub name: Seq<char>,
    pub command: Seq<char>,
    pub interval: Duration,
    pub default: Seq<char>,
    pub node: int,
}

pub struct OutlineView {
    pub vars: Seq<VarDefView>,
    pub pulls: Seq<PullDefView>,
    pub elements: Seq<ElementDefView>,
    pub notification: Option<int>,
    pub apptray: Option<int>,
    pub icon_theme: Option<Seq<char>>,
    pub issues: Seq<IssueView>,
}

pub open spec fn opt_int(e: Option<usize>) -> Option<int> {
    match e {
        Some(i) => Some(i as int),
        None => None,
    }
}

pub open spec fn issue_view(i: Issue) -> IssueView {
    IssueView { kind: i.kind, severity: i.severity, message: i.message@, node: i.node as int, entry: opt_int(i.entry), child: opt_int(i.child) }
}

pub open spec fn var_view(v: VarDef) -> VarDefView {
    VarDefView { name: v.name@, node: v.node as int, entry: opt_int(v.entry) }
}

pub open spec fn element_view(e: ElementDef) -> ElementDefView {
    ElementDefView { kind: e.kind, id: e.id@, node: e.node as int }
}

pub open spec fn pull_view(p: PullDef) -> PullDefView {
    PullDefView { name: p.name@, command: p.decl.command@, interval: p.decl.interval, default: p.decl.default@, node: p.node as int }
}

pub open spec fn issues_view(s: Seq<Issue>) -> Seq<IssueView> {
    s.map_values(|x: Issue| issue_view(x))
}

pub open spec fn vars_view(s: Seq<VarDef>) -> Seq<VarDefView> {
    s.map_values(|x: VarDef| var_view(x))
}

pub open spec fn elements_view(s: Seq<ElementDef>) -> Seq<ElementDefView> {
    s.map_values(|x: ElementDef| element_view(x))
}

pub open spec fn pulls_view(s: Seq<PullDef>) -> Seq<PullDefView> {
    s.map_values(|x: PullDef| pull_view(x))
}

impl View for Outline {
    type V = OutlineView;

    open spec fn view(&self) -> OutlineView {
        OutlineView {
            vars: vars_view(self.vars@),
            pulls: pulls_view(self.pulls@),
            elements: elements_view(self.elements@),
            notification: opt_int(self.notification),
            apptray: opt_int(self.apptray),
            icon_theme: match self.icon_theme {
                Some(t) => Some(t@),
                None => None,
            },
            issues: issues_view(self.issues@),
        }
    }
}

pub open spec fn empty_outline() -> OutlineView {
    OutlineView {
        vars: seq![],
        pulls: seq![],
        elements: seq![],
        notification: None,
        apptray: None,
        icon_theme: None,
        issues: seq![],
    }
}

/// Whether a variable (or a pull, which is one too) named `name` is
/// defined.
pub open spec fn has_var(vs: Seq<VarDefView>, name: Seq<char>) -> bool {
    exists|i: int| 0 <= i < vs.len() && (#[trigger] vs[i]).name == name
}

pub open spec fn has_pull(ps: Seq<PullDefView>, name: Seq<char>) -> bool {
    exists|i: int| 0 <= i < ps.len() && (#[trigger] ps[i]).name == name
}

/// Whether an element of kind `k` with id `id` is defined.
pub open spec fn has_element(es: Seq<ElementDefView>, k: ElementKind, id: Seq<char>) -> bool {
    exists|i: int| 0 <= i < es.len() && (#[trigger] es[i]).kind == k && es[i].id == id
}

pub open spec fn with_issue(o: OutlineView, kind: ConfigErrorKind, severity: Severity, message: Seq<char>, node: int, entry: Option<int>) -> OutlineView {
    OutlineView { issues: o.issues.push(IssueView { kind, severity, message, node, entry, child: None }), ..o }
}

/// The problems `ps` of the fields of node `node`, all errors, added in
/// order.
pub open spec fn with_problems(o: OutlineView, ps: Seq<ProblemView>, node: int) -> OutlineView {
    OutlineView {
        issues: o.issues + ps.map_values(|p: ProblemView| IssueView {
            kind: p.kind,
            severity: Severity::Error,
            message: p.message,
            node,
            entry: p.entry,
            child: p.child,
        }),
        ..o
    }
}

/// The problems of the fields of node `n` built as form `f`.
pub open spec fn node_problems(f: Form, n: Node) -> Seq<ProblemView> {
    fields_problems(fields_of(f), n)
}

pub open spec fn twice_message(what: Seq<char>) -> Seq<char> {
    what + " is defined twice, using first"@
}

/// One property of a `var` node: a new variable, or a problem with it.
pub open spec fn var_step(o: OutlineView, name: Seq<char>, value: KdlScalar, node: int, entry: int) -> OutlineView {
    if value is Null {
        with_issue(o, ConfigErrorKind::VariableMissingValue, Severity::Error, "variable declaration requires a value"@, node, Some(entry))
    } else if has_var(o.vars, name) {
        with_issue(o, ConfigErrorKind::DuplicateVariable, Severity::Warning, twice_message("variable "@ + name), node, Some(entry))
    } else {
        OutlineView { vars: o.vars.push(VarDefView { name, node, entry: Some(entry) }), ..o }
    }
}

/// The properties of a `var` node, read in order.
pub open spec fn var_entries(o: OutlineView, es: Seq<Entry>, node: int) -> OutlineView
    decreases es.len(),
{
    if es.len() == 0 {
        o
    } else {
        let before = var_entries(o, es.drop_last(), node);
        match es.last().name {
            None => before,
            Some(n) => var_step(before, n@, es.last().value, node, es.len() - 1),
        }
    }
}

pub open spec fn has_property(es: Seq<Entry>) -> bool {
    exists|j: int| 0 <= j < es.len() && (#[trigger] es[j]).name is Some
}

/// Whether a node defines an element and is refused for using the
/// reserved id `apptray`.
pub open spec fn reserved(n: Node) -> bool {
    n.name@ != "apptray"@ && element_kind(n.name@) is Some && spec_first_positional(n.entries@) == Some("apptray"@)
}

/// The effect of node `i` on what the nodes before it defined.
pub open spec fn node_step(o: OutlineView, n: Node, i: int) -> OutlineView {
    let name = n.name@;
    let first = spec_first_positional(n.entries@);
    if reserved(n) {
        with_issue(o, ConfigErrorKind::DuplicateElement, Severity::Error, "\"apptray\" is a reserved id"@, i, None)
    } else if name == "var"@ {
        if has_property(n.entries@) {
            var_entries(o, n.entries@, i)
        } else {
            with_issue(o, ConfigErrorKind::VariableMissingValue, Severity::Error, "variable declaration requires a value"@, i, None)
        }
    } else if element_kind(name) is Some {
        let k = element_kind(name)->0;
        match first {
            None => o,
            Some(id) => {
                let built = with_problems(o, node_problems(Form::Element(k), n), i);
                if has_element(o.elements, k, id) {
                    with_issue(built, ConfigErrorKind::DuplicateElement, Severity::Warning,
                        twice_message(kind_name(k) + " "@ + id), i, None)
                } else {
                    OutlineView { elements: o.elements.push(ElementDefView { kind: k, id, node: i }), ..built }
                }
            },
        }
    } else if name == "notification"@ {
        let built = with_problems(o, node_problems(Form::Notification, n), i);
        if o.notification is Some {
            with_issue(built, ConfigErrorKind::DuplicateElement, Severity::Warning, twice_message("notification block"@), i, None)
        } else {
            OutlineView { notification: Some(i), ..built }
        }
    } else if name == "apptray"@ {
        let built = with_problems(o, node_problems(Form::Apptray, n), i);
        if o.apptray is Some {
            with_issue(built, ConfigErrorKind::DuplicateElement, Severity::Warning, twice_message("apptray block"@), i, None)
        } else {
            OutlineView { apptray: Some(i), ..built }
        }
    } else if name == "icon_theme"@ {
        match first {
            Some(t) => if o.icon_theme is Some {
                with_issue(o, ConfigErrorKind::DuplicateElement, Severity::Warning, twice_message("icon_theme"@), i, None)
            } else {
                OutlineView { icon_theme: Some(t), ..o }
            },
            None => with_issue(o, ConfigErrorKind::MissingRequiredField, Severity::Warning,
                "icon_theme requires a string value, e.g. icon_theme \"Gruvbox-Plus-Dark\""@, i, None),
        }
    } else if name == "pull"@ {
        match spec_build_pull(n.entries@) {
            Err(m) => with_issue(o, ConfigErrorKind::InvalidFieldType, Severity::Error, m, i, None),
            Ok((id, command, ms, default)) => if has_var(o.vars, id) || has_pull(o.pulls, id) {
                with_issue(o, ConfigErrorKind::DuplicateVariable, Severity::Warning, twice_message("variable "@ + id), i, None)
            } else {
                OutlineView {
                    vars: o.vars.push(VarDefView { name: id, node: i, entry: None }),
                    pulls: o.pulls.push(PullDefView { name: id, command, interval: duration_of_millis(ms), default, node: i }),
                    ..o
                }
            },
        }
    } else {
        with_issue(o, ConfigErrorKind::UnknownNode, Severity::Error, "unknown node \""@ + name + "\""@, i, None)
    }
}

/// What the nodes of a document define, read in order.
pub open spec fn spec_outline(nodes: Seq<Node>) -> OutlineView
    decreases nodes.len(),
{
    if nodes.len() == 0 {
        empty_outline()
    } else {
        node_step(spec_outline(nodes.drop_last()), nodes.last(), nodes.len() - 1)
    }
}

fn var_defined(vars: &Vec<VarDef>, name: &str) -> (r: bool)
    ensures
        r == has_var(vars_view(vars@), name@),
{
    let mut i: usize = 0;
    while i < vars.len()
        invariant
            i <= vars@.len(),
            forall|k: int| 0 <= k < i ==> (#[trigger] vars@[k]).name@ != name@,
        decreases vars@.len() - i,
    {
        if str_eq(vars[i].name.as_str(), name) {
            proof {
                assert(vars_view(vars@)[i as int].name == name@);
            }
            return true;
        }
        i = i + 1;
    }
    proof {
        if has_var(vars_view(vars@), name@) {
            let k = choose|k: int| 0 <= k < vars_view(vars@).len() && (#[trigger] vars_view(vars@)[k]).name == name@;
            assert(vars@[k].name@ == name@);
        }
    }
    false
}

fn pull_defined(pulls: &Vec<PullDef>, name: &str) -> (r: bool)
    ensures
        r == has_pull(pulls_view(pulls@), name@),
{
    let mut i: usize = 0;
    while i < pulls.len()
        invariant
            i <= pulls@.len(),
            forall|k: int| 0 <= k < i ==> (#[trigger] pulls@[k]).name@ != name@,
        decreases pulls@.len() - i,
    {
        if str_eq(pulls[i].name.as_str(), name) {
            proof {
                assert(pulls_view(pulls@)[i as int].name == name@);
            }
            return true;
        }
        i = i + 1;
    }
    proof {
        if has_pull(pulls_view(pulls@), name@) {
            let k = choose|k: int| 0 <= k < pulls_view(pulls@).len() && (#[trigger] pulls_view(pulls@)[k]).name == name@;
            assert(pulls@[k].name@ == name@);
        }
    }
    false
}

fn element_defined(es: &Vec<ElementDef>, k: ElementKind, id: &str) -> (r: bool)
    ensures
        r == has_element(elements_view(es@), k, id@),
{
    let mut i: usize = 0;
    while i < es.len()
        invariant
            i <= es@.len(),
            forall|j: int| 0 <= j < i ==> !((#[trigger] es@[j]).kind == k && es@[j].id@ == id@),
        decreases es@.len() - i,
    {
        if es[i].kind == k && str_eq(es[i].id.as_str(), id) {
            proof {
                assert(elements_view(es@)[i as int].kind == k);
            }
            return true;
        }
        i = i + 1;
    }
    proof {
        if has_element(elements_view(es@), k, id@) {
            let j = choose|j: int| 0 <= j < elements_view(es@).len() && (#[trigger] elements_view(es@)[j]).kind == k
                && elements_view(es@)[j].id == id@;
            assert(es@[j].kind == k);
        }
    }
    false
}

fn has_property_in(entries: &Vec<Entry>) -> (r: bool)
    ensures
        r == has_property(entries@),
{
    let mut j: usize = 0;
    while j < entries.len()
        invariant
            j <= entries@.len(),
            forall|k: int| 0 <= k < j ==> (#[trigger] entries@[k]).name is None,
        decreases entries@.len() - j,
    {
        if entries[j].name.is_some() {
            return true;
        }
        j = j + 1;
    }
    false
}

/// `what` followed by ` is defined twice, using first`.
fn twice(what: String) -> (r: String)
    ensures
        r@ == twice_message(what@),
{
    let mut m = what;
    push_str(&mut m, " is defined twice, using first");
    m
}

impl Outline {
    fn issue(&mut self, kind: ConfigErrorKind, severity: Severity, message: String, node: usize, entry: Option<usize>)
        ensures
            final(self)@ == with_issue(old(self)@, kind, severity, message@, node as int, opt_int(entry)),
    {
        let ghost before = self.issues@;
        let it = Issue { kind, severity, message, node, entry, child: None };
        self.issues.push(it);
        proof {
            assert(issues_view(before.push(it)) =~= issues_view(before).push(issue_view(it)));
        }
    }

    /// The properties of a `var` node.
    fn read_var(&mut self, entries: &Vec<Entry>, node: usize)
        ensures
            final(self)@ == var_entries(old(self)@, entries@, node as int),
    {
        let ghost start = self@;
        let mut j: usize = 0;
        while j < entries.len()
            invariant
                j <= entries@.len(),
                self@ == var_entries(start, entries@.take(j as int), node as int),
            decreases entries@.len() - j,
        {
            proof {
                assert(entries@.take(j + 1).drop_last() =~= entries@.take(j as int));
                assert(entries@.take(j + 1).last() == entries@[j as int]);
            }
            match &entries[j].name {
                None => {},
                Some(n) => {
                    match &entries[j].value {
                        KdlScalar::Null => {
                            self.issue(ConfigErrorKind::VariableMissingValue, Severity::Error,
                                owned("variable declaration requires a value"), node, Some(j));
                        },
                        _ => {
                            if var_defined(&self.vars, n.as_str()) {
                                let mut m = owned("variable ");
                                push_str(&mut m, n.as_str());
                                self.issue(ConfigErrorKind::DuplicateVariable, Severity::Warning, twice(m), node, Some(j));
                            } else {
                                let ghost before = self.vars@;
                                let v = VarDef { name: n.clone(), node, entry: Some(j) };
                                self.vars.push(v);
                                proof {
                                    assert(vars_view(before.push(v)) =~= vars_view(before).push(var_view(v)));
                                }
                            }
                        },
                    }
                },
            }
            j = j + 1;
        }
        proof {
            assert(entries@.take(j as int) =~= entries@);
        }
    }

    /// An element node whose id is `id`.
    fn read_element(&mut self, k: ElementKind, id: String, node: usize)
        ensures
            final(self)@ == (if has_element(old(self)@.elements, k, id@) {
                with_issue(old(self)@, ConfigErrorKind::DuplicateElement, Severity::Warning,
                    twice_message(kind_name(k) + " "@ + id@), node as int, None)
            } else {
                OutlineView { elements: old(self)@.elements.push(ElementDefView { kind: k, id: id@, node: node as int }), ..old(self)@ }
            }),
    {
        if element_defined(&self.elements, k, id.as_str()) {
            let mut m = owned(kind_word(k));
            push_str(&mut m, " ");
            push_str(&mut m, id.as_str());
            self.issue(ConfigErrorKind::DuplicateElement, Severity::Warning, twice(m), node, None);
        } else {
            let ghost before = self.elements@;
            let e = ElementDef { kind: k, id, node };
            self.elements.push(e);
            proof {
                assert(elements_view(before.push(e)) =~= elements_view(before).push(element_view(e)));
            }
        }
    }

    /// A `pull` node.
    fn read_pull(&mut self, entries: &Vec<Entry>, node: usize)
        ensures
            final(self)@ == (match spec_build_pull(entries@) {
                Err(m) => with_issue(old(self)@, ConfigErrorKind::InvalidFieldType, Severity::Error, m, node as int, None),
                Ok((id, command, ms, default)) => if has_var(old(self)@.vars, id) || has_pull(old(self)@.pulls, id) {
                    with_issue(old(self)@, ConfigErrorKind::DuplicateVariable, Severity::Warning,
                        twice_message("variable "@ + id), node as int, None)
                } else {
                    OutlineView {
                        vars: old(self)@.vars.push(VarDefView { name: id, node: node as int, entry: None }),
                        pulls: old(self)@.pulls.push(PullDefView { name: id, command, interval: duration_of_millis(ms), default, node: node as int }),
                        ..old(self)@
                    }
                },
            }),
    {
        match build_pull(entries.as_slice()) {
            Err(m) => {
                self.issue(ConfigErrorKind::InvalidFieldType, Severity::Error, m, node, None);
            },
            Ok((id, decl)) => {
                if var_defined(&self.vars, id.as_str()) || pull_defined(&self.pulls, id.as_str()) {
                    let mut m = owned("variable ");
                    push_str(&mut m, id.as_str());
                    self.issue(ConfigErrorKind::DuplicateVariable, Severity::Warning, twice(m), node, None);
                } else {
                    let ghost vb = self.vars@;
                    let ghost pb = self.pulls@;
                    let v = VarDef { name: id.clone(), node, entry: None };
                    let p = PullDef { name: id, decl, node };
                    self.vars.push(v);
                    self.pulls.push(p);
                    proof {
                        assert(vars_view(vb.push(v)) =~= vars_view(vb).push(var_view(v)));
                        assert(pulls_view(pb.push(p)) =~= pulls_view(pb).push(pull_view(p)));
                    }
                }
            },
        }
    }

    /// Adds the problems `ps` of the fields of node `node`, as errors.
    fn add_problems(&mut self, ps: Vec<Problem>, node: usize)
        ensures
            final(self)@ == with_problems(old(self)@, problems_view(ps@), node as int),
    {
        let ghost start = self@;
        let mut k: usize = 0;
        while k < ps.len()
            invariant
                k <= ps@.len(),
                self@ == with_problems(start, problems_view(ps@).take(k as int), node as int),
            decreases ps@.len() - k,
        {
            let p = &ps[k];
            let ghost before = self.issues@;
            let it = Issue { kind: p.kind, severity: Severity::Error, message: p.message.clone(), node, entry: p.entry, child: p.child };
            self.issues.push(it);
            proof {
                assert(issues_view(before.push(it)) =~= issues_view(before).push(issue_view(it)));
                let pv = problems_view(ps@);
                assert(pv.take(k + 1) =~= pv.take(k as int).push(problem_view(ps@[k as int])));
                assert(with_problems(start, pv.take(k + 1), node as int).issues
                    =~= with_problems(start, pv.take(k as int), node as int).issues.push(issue_view(it)));
            }
            k = k + 1;
        }
        proof {
            assert(problems_view(ps@).take(k as int) =~= problems_view(ps@));
        }
    }

    /// Node `i` of the document.
    fn read_node(&mut self, n: &Node, i: usize)
        ensures
            final(self)@ == node_step(old(self)@, *n, i as int),
    {
        proof {
            reveal_strlit("apptray");
        }
        let name = n.name.as_str();
        let first = first_positional_string(n.entries.as_slice());
        let kind = element_kind_of(name);
        let first_is_apptray = match &first {
            Some(t) => str_eq(t.as_str(), "apptray"),
            None => false,
        };
        if !str_eq(name, "apptray") && kind.is_some() && first_is_apptray {
            self.issue(ConfigErrorKind::DuplicateElement, Severity::Error, owned("\"apptray\" is a reserved id"), i, None);
            return;
        }
        if str_eq(name, "var") {
            if has_property_in(&n.entries) {
                self.read_var(&n.entries, i);
            } else {
                self.issue(ConfigErrorKind::VariableMissingValue, Severity::Error,
                    owned("variable declaration requires a value"), i, None);
            }
            return;
        }
        match kind {
            Some(k) => {
                match first {
                    None => {},
                    Some(id) => {
                        let ps = form_problems(Form::Element(k), n);
                        self.add_problems(ps, i);
                        self.read_element(k, id, i);
                    },
                }
                return;
            },
            None => {},
        }
        if str_eq(name, "notification") {
            let ps = form_problems(Form::Notification, n);
            self.add_problems(ps, i);
            if self.notification.is_some() {
                self.issue(ConfigErrorKind::DuplicateElement, Severity::Warning,
                    twice(owned("notification block")), i, None);
            } else {
                self.notification = Some(i);
            }
        } else if str_eq(name, "apptray") {
            let ps = form_problems(Form::Apptray, n);
            self.add_problems(ps, i);
            if self.apptray.is_some() {
                self.issue(ConfigErrorKind::DuplicateElement, Severity::Warning,
                    twice(owned("apptray block")), i, None);
            } else {
                self.apptray = Some(i);
            }
        } else if str_eq(name, "icon_theme") {
            match first {
                Some(t) => if self.icon_theme.is_some() {
                    self.issue(ConfigErrorKind::DuplicateElement, Severity::Warning,
                        twice(owned("icon_theme")), i, None);
                } else {
                    self.icon_theme = Some(t);
                },
                None => {
                    self.issue(ConfigErrorKind::MissingRequiredField, Severity::Warning,
                        owned("icon_theme requires a string value, e.g. icon_theme \"Gruvbox-Plus-Dark\""), i, None);
                },
            }
        } else if str_eq(name, "pull") {
            self.read_pull(&n.entries, i);
        } else {
            let mut m = owned("unknown node \"");
            push_str(&mut m, name);
            push_str(&mut m, "\"");
            self.issue(ConfigErrorKind::UnknownNode, Severity::Error, m, i, None);
        }
    }
}

/// Reads the top level of a document: the variables, pulls, elements and
/// blocks its nodes define, each name by its first definition, and the
/// problems with the other nodes.
pub fn parse_document(nodes: &[Node]) -> (r: Outline)
    ensures
        r@ == spec_outline(nodes@),
{
    let mut out = Outline {
        vars: Vec::new(),
        pulls: Vec::new(),
        elements: Vec::new(),
        notification: None,
        apptray: None,
        icon_theme: None,
        issues: Vec::new(),
    };
    proof {
        assert(out@.vars =~= Seq::<VarDefView>::empty());
        assert(out@.pulls =~= Seq::<PullDefView>::empty());
        assert(out@.elements =~= Seq::<ElementDefView>::empty());
        assert(out@.issues =~= Seq::<IssueView>::empty());
        assert(nodes@.take(0) =~= Seq::<Node>::empty());
    }
    let mut i: usize = 0;
    while i < nodes.len()
        invariant
            i <= nodes@.len(),
            out@ == spec_outline(nodes@.take(i as int)),
        decreases nodes@.len() - i,
    {
        proof {
            assert(nodes@.take(i + 1).drop_last() =~= nodes@.take(i as int));
            assert(nodes@.take(i + 1).last() == nodes@[i as int]);
        }
        out.read_node(&nodes[i], i);
        i = i + 1;
    }
    proof {
        assert(nodes@.take(i as int) =~= nodes@);
    }
    out
}

/// Node `n` defines an element of kind `k` with id `id`.
pub open spec fn defines(n: Node, k: ElementKind, id: Seq<char>) -> bool {
    !reserved(n) && element_kind(n.name@) == Some(k) && spec_first_positional(n.entries@) == Some(id)
}

/// Node `i` is the first of `nodes` to define the element `k`/`id`.
pub open spec fn first_definition(nodes: Seq<Node>, k: ElementKind, id: Seq<char>, i: int) -> bool {
    &&& 0 <= i < nodes.len()
    &&& defines(nodes[i], k, id)
    &&& forall|j: int| 0 <= j < i ==> !defines(#[trigger] nodes[j], k, id)
}

proof fn lemma_var_entries_keeps(o: OutlineView, es: Seq<Entry>, node: int)
    ensures
        var_entries(o, es, node).elements == o.elements,
        var_entries(o, es, node).pulls == o.pulls,
        var_entries(o, es, node).notification == o.notification,
        var_entries(o, es, node).apptray == o.apptray,
        var_entries(o, es, node).icon_theme == o.icon_theme,
    decreases es.len(),
{
    if es.len() > 0 {
        lemma_var_entries_keeps(o, es.drop_last(), node);
    }
}

proof fn lemma_var_is_no_element()
    ensures
        element_kind("var"@) is None,
{
    reveal_strlit("var");
    reveal_strlit("widget");
    reveal_strlit("container");
    reveal_strlit("style");
    reveal_strlit("border");
    reveal_strlit("shadow");
    reveal_strlit("font");
    reveal_strlit("button");
    reveal_strlit("row");
    reveal_strlit("column");
    reveal_strlit("text");
    assert("var"@[0] != "row"@[0]);
}

/// The elements of an outline are the first definitions of the nodes.
proof fn lemma_elements(nodes: Seq<Node>)
    ensures
        forall|e: int| 0 <= e < spec_outline(nodes).elements.len() ==> first_definition(nodes,
            (#[trigger] spec_outline(nodes).elements[e]).kind, spec_outline(nodes).elements[e].id,
            spec_outline(nodes).elements[e].node),
        forall|i: int, k: ElementKind, id: Seq<char>| 0 <= i < nodes.len() && #[trigger] defines(nodes[i], k, id)
            ==> has_element(spec_outline(nodes).elements, k, id),
    decreases nodes.len(),
{
    if nodes.len() > 0 {
        let before = nodes.drop_last();
        let m = nodes.len() - 1;
        let n = nodes.last();
        lemma_elements(before);
        let o = spec_outline(before);
        let r = spec_outline(nodes);
        assert(r == node_step(o, n, m));
        assert forall|j: int| 0 <= j < m implies #[trigger] nodes[j] == before[j] by {}
        if n.name@ == "var"@ && has_property(n.entries@) && !reserved(n) {
            lemma_var_entries_keeps(o, n.entries@, m);
        }
        assert forall|e: int| 0 <= e < r.elements.len() implies first_definition(nodes,
            (#[trigger] r.elements[e]).kind, r.elements[e].id, r.elements[e].node) by {
            if e < o.elements.len() {
                assert(r.elements[e] == o.elements[e]);
                let x = o.elements[e];
                assert(first_definition(before, x.kind, x.id, x.node));
                assert forall|j: int| 0 <= j < x.node implies !defines(#[trigger] nodes[j], x.kind, x.id) by {
                    assert(nodes[j] == before[j]);
                }
            } else {
                let x = r.elements[e];
                assert(x.node == m);
                assert forall|j: int| 0 <= j < m implies !defines(#[trigger] nodes[j], x.kind, x.id) by {
                    assert(nodes[j] == before[j]);
                    if defines(before[j], x.kind, x.id) {
                        assert(has_element(o.elements, x.kind, x.id));
                    }
                }
            }
        }
        assert forall|i: int, k: ElementKind, id: Seq<char>| 0 <= i < nodes.len() && #[trigger] defines(nodes[i], k, id)
            implies has_element(r.elements, k, id) by {
            if i < m {
                assert(nodes[i] == before[i]);
                assert(defines(before[i], k, id));
                let w = choose|w: int| 0 <= w < o.elements.len() && (#[trigger] o.elements[w]).kind == k && o.elements[w].id == id;
                assert(r.elements[w] == o.elements[w]);
            } else {
                lemma_var_is_no_element();
                if has_element(o.elements, k, id) {
                    let w = choose|w: int| 0 <= w < o.elements.len() && (#[trigger] o.elements[w]).kind == k && o.elements[w].id == id;
                    assert(r.elements[w] == o.elements[w]);
                } else {
                    assert(r.elements[o.elements.len() as int].kind == k);
                }
            }
        }
    }
}

/// The first definition of an element wins: the outline holds the element
/// of kind `k` with id `id` from node `i` exactly when node `i` is the
/// first to define it; every later definition is reported as a duplicate.
pub proof fn law_first_element_definition_wins(nodes: Seq<Node>, k: ElementKind, id: Seq<char>, i: int)
    ensures
        spec_outline(nodes).elements.contains(ElementDefView { kind: k, id, node: i }) <==> first_definition(nodes, k, id, i),
{
    lemma_elements(nodes);
    let r = spec_outline(nodes);
    let x = ElementDefView { kind: k, id, node: i };
    if r.elements.contains(x) {
        let e = choose|e: int| 0 <= e < r.elements.len() && r.elements[e] == x;
        assert(first_definition(nodes, r.elements[e].kind, r.elements[e].id, r.elements[e].node));
    }
    if first_definition(nodes, k, id, i) {
        assert(defines(nodes[i], k, id));
        let w = choose|w: int| 0 <= w < r.elements.len() && (#[trigger] r.elements[w]).kind == k && r.elements[w].id == id;
        let y = r.elements[w];
        assert(first_definition(nodes, y.kind, y.id, y.node));
        if y.node < i {
            assert(!defines(nodes[y.node], k, id));
        }
        if y.node > i {
            assert(!defines(nodes[i], k, id));
        }
        assert(r.elements[w] == x);
    }
}

/// Node `i` declares the variable `name`: with its property `e` when it is
/// a `var` node, as a pull (no entry) when it is a `pull` node.
pub open spec fn declares(nodes: Seq<Node>, i: int, e: Option<int>, name: Seq<char>) -> bool {
    &&& 0 <= i < nodes.len()
    &&& if nodes[i].name@ == "var"@ {
        match e {
            Some(j) => 0 <= j < nodes[i].entries@.len() && !(nodes[i].entries@[j].value is Null)
                && match nodes[i].entries@[j].name {
                    Some(x) => x@ == name,
                    None => false,
                },
            None => false,
        }
    } else if nodes[i].name@ == "pull"@ {
        e is None && match spec_build_pull(nodes[i].entries@) {
            Ok((x, _, _, _)) => x == name,
            Err(_) => false,
        }
    } else {
        false
    }
}

/// Property `e2` of node `i2` comes before property `e` of node `i`.
pub open spec fn before_in_document(i2: int, e2: Option<int>, i: int, e: Option<int>) -> bool {
    i2 < i || (i2 == i && match (e2, e) {
        (Some(a), Some(b)) => a < b,
        _ => false,
    })
}

/// The declaration of `name` at property `e` of node `i` is its first.
pub open spec fn first_declaration(nodes: Seq<Node>, name: Seq<char>, i: int, e: Option<int>) -> bool {
    &&& declares(nodes, i, e, name)
    &&& forall|i2: int, e2: Option<int>| before_in_document(i2, e2, i, e) ==> !#[trigger] declares(nodes, i2, e2, name)
}

/// Whether a declaration lies in the part of the document read so far:
/// the nodes before `m`, and the first `t` properties of node `m`.
pub open spec fn read_so_far(m: int, t: int, i: int, e: Option<int>) -> bool {
    i < m || (i == m && match e {
        Some(j) => j < t,
        None => false,
    })
}

/// What reading the document up to node `m`, property `t`, keeps true of
/// the variables: each is the first declaration of its name, every name
/// declared so far is there, and every pull is a variable.
pub open spec fn vars_inv(nodes: Seq<Node>, o: OutlineView, m: int, t: int) -> bool {
    &&& forall|v: int| 0 <= v < o.vars.len() ==> {
        let x = #[trigger] o.vars[v];
        first_declaration(nodes, x.name, x.node, x.entry) && read_so_far(m, t, x.node, x.entry)
    }
    &&& forall|i: int, e: Option<int>, name: Seq<char>| #[trigger] declares(nodes, i, e, name) && read_so_far(m, t, i, e)
        ==> has_var(o.vars, name)
    &&& forall|p: int| 0 <= p < o.pulls.len() ==> has_var(o.vars, (#[trigger] o.pulls[p]).name)
}

proof fn lemma_names_differ()
    ensures
        element_kind("pull"@) is None,
        "var"@ != "pull"@,
        "notification"@ != "pull"@,
        "apptray"@ != "pull"@,
        "icon_theme"@ != "pull"@,
        "notification"@ != "var"@,
        "apptray"@ != "var"@,
        "icon_theme"@ != "var"@,
{
    reveal_strlit("var");
    reveal_strlit("pull");
    reveal_strlit("notification");
    reveal_strlit("apptray");
    reveal_strlit("icon_theme");
    reveal_strlit("widget");
    reveal_strlit("container");
    reveal_strlit("style");
    reveal_strlit("border");
    reveal_strlit("shadow");
    reveal_strlit("font");
    reveal_strlit("button");
    reveal_strlit("row");
    reveal_strlit("column");
    reveal_strlit("text");
    assert("pull"@[0] != "font"@[0]);
    assert("pull"@[0] != "text"@[0]);
    assert("notification"@.len() != "var"@.len());
    assert("apptray"@.len() != "var"@.len());
}

proof fn lemma_declares_prefix(nodes: Seq<Node>, m: int)
    requires
        0 <= m <= nodes.len(),
    ensures
        forall|i: int, e: Option<int>, name: Seq<char>| i < m ==>
            (#[trigger] declares(nodes.take(m), i, e, name) <==> declares(nodes, i, e, name)),
{
    assert forall|i: int, e: Option<int>, name: Seq<char>| i < m implies
        (#[trigger] declares(nodes.take(m), i, e, name) <==> declares(nodes, i, e, name)) by {
        if 0 <= i {
            assert(nodes.take(m)[i] == nodes[i]);
        }
    }
}

/// Reading the properties of the `var` node `m` one by one keeps the
/// invariant.
proof fn lemma_var_node(nodes: Seq<Node>, m: int, o: OutlineView, t: int)
    requires
        0 <= m < nodes.len(),
        nodes[m].name@ == "var"@,
        0 <= t <= nodes[m].entries@.len(),
        vars_inv(nodes, o, m, 0),
    ensures
        vars_inv(nodes, var_entries(o, nodes[m].entries@.take(t), m), m, t),
    decreases t,
{
    let es = nodes[m].entries@;
    if t == 0 {
        assert(es.take(0) =~= Seq::<Entry>::empty());
    } else {
        lemma_var_node(nodes, m, o, t - 1);
        let r0 = var_entries(o, es.take(t - 1), m);
        assert(es.take(t).drop_last() =~= es.take(t - 1));
        assert(es.take(t).last() == es[t - 1]);
        lemma_var_entries_keeps(o, es.take(t - 1), m);
        let r = var_entries(o, es.take(t), m);
        match es[t - 1].name {
            None => {
                assert(r == r0);
                assert forall|i: int, e: Option<int>, name: Seq<char>| #[trigger] declares(nodes, i, e, name)
                    && read_so_far(m, t, i, e) implies has_var(r.vars, name) by {
                    assert(read_so_far(m, t - 1, i, e));
                }
            },
            Some(x) => {
                let name = x@;
                if es[t - 1].value is Null {
                    assert(r.vars == r0.vars);
                    assert forall|i: int, e: Option<int>, nm: Seq<char>| #[trigger] declares(nodes, i, e, nm)
                        && read_so_far(m, t, i, e) implies has_var(r.vars, nm) by {
                        assert(read_so_far(m, t - 1, i, e));
                    }
                } else if has_var(r0.vars, name) {
                    assert(r.vars == r0.vars);
                    assert forall|i: int, e: Option<int>, nm: Seq<char>| #[trigger] declares(nodes, i, e, nm)
                        && read_so_far(m, t, i, e) implies has_var(r.vars, nm) by {
                        if !read_so_far(m, t - 1, i, e) {
                            assert(i == m && e == Some(t - 1));
                        }
                    }
                } else {
                    let nv = VarDefView { name, node: m, entry: Some(t - 1) };
                    assert(r.vars == r0.vars.push(nv));
                    assert(declares(nodes, m, Some(t - 1), name));
                    assert forall|i2: int, e2: Option<int>| before_in_document(i2, e2, m, Some(t - 1))
                        implies !#[trigger] declares(nodes, i2, e2, name) by {
                        if declares(nodes, i2, e2, name) {
                            assert(read_so_far(m, t - 1, i2, e2));
                        }
                    }
                    assert forall|v: int| 0 <= v < r.vars.len() implies {
                        let y = #[trigger] r.vars[v];
                        first_declaration(nodes, y.name, y.node, y.entry) && read_so_far(m, t, y.node, y.entry)
                    } by {
                        if v < r0.vars.len() {
                            assert(r.vars[v] == r0.vars[v]);
                        }
                    }
                    assert forall|i: int, e: Option<int>, nm: Seq<char>| #[trigger] declares(nodes, i, e, nm)
                        && read_so_far(m, t, i, e) implies has_var(r.vars, nm) by {
                        if read_so_far(m, t - 1, i, e) {
                            let w = choose|w: int| 0 <= w < r0.vars.len() && (#[trigger] r0.vars[w]).name == nm;
                            assert(r.vars[w] == r0.vars[w]);
                        } else {
                            assert(i == m && e == Some(t - 1));
                            assert(r.vars[r0.vars.len() as int] == nv);
                        }
                    }
                    assert forall|p: int| 0 <= p < r.pulls.len() implies has_var(r.vars, (#[trigger] r.pulls[p]).name) by {
                        let w = choose|w: int| 0 <= w < r0.vars.len() && (#[trigger] r0.vars[w]).name == r0.pulls[p].name;
                        assert(r.vars[w] == r0.vars[w]);
                    }
                }
            },
        }
    }
}

proof fn lemma_inv_extend(nodes: Seq<Node>, m: int, o: OutlineView)
    requires
        0 <= m < nodes.len(),
        vars_inv(nodes.take(m), o, m, 0),
    ensures
        vars_inv(nodes, o, m, 0),
{
    lemma_declares_prefix(nodes, m);
    assert forall|v: int| 0 <= v < o.vars.len() implies {
        let x = #[trigger] o.vars[v];
        first_declaration(nodes, x.name, x.node, x.entry) && read_so_far(m, 0, x.node, x.entry)
    } by {
        let x = o.vars[v];
        assert(first_declaration(nodes.take(m), x.name, x.node, x.entry));
        assert forall|i2: int, e2: Option<int>| before_in_document(i2, e2, x.node, x.entry)
            implies !#[trigger] declares(nodes, i2, e2, x.name) by {
            assert(!declares(nodes.take(m), i2, e2, x.name));
        }
    }
    assert forall|i: int, e: Option<int>, name: Seq<char>| #[trigger] declares(nodes, i, e, name) && read_so_far(m, 0, i, e)
        implies has_var(o.vars, name) by {
        assert(declares(nodes.take(m), i, e, name));
    }
}

/// A node that declares nothing leaves the invariant as it is, one node on.
proof fn lemma_inv_no_declaration(nodes: Seq<Node>, m: int, o: OutlineView, r: OutlineView)
    requires
        0 <= m < nodes.len(),
        vars_inv(nodes, o, m, 0),
        r.vars == o.vars,
        r.pulls == o.pulls,
        forall|e: Option<int>, name: Seq<char>| !#[trigger] declares(nodes, m, e, name),
    ensures
        vars_inv(nodes, r, m + 1, 0),
{
    assert forall|i: int, e: Option<int>, name: Seq<char>| #[trigger] declares(nodes, i, e, name) && read_so_far(m + 1, 0, i, e)
        implies has_var(r.vars, name) by {
        if i == m {
            assert(!declares(nodes, m, e, name));
        }
        assert(read_so_far(m, 0, i, e));
    }
}

/// The variables of the outline of `nodes` are the first declarations of
/// their names, and every declared name is among them.
proof fn lemma_vars(nodes: Seq<Node>)
    ensures
        vars_inv(nodes, spec_outline(nodes), nodes.len() as int, 0),
    decreases nodes.len(),
{
    if nodes.len() > 0 {
        let m = nodes.len() - 1;
        let before = nodes.drop_last();
        assert(before =~= nodes.take(m));
        lemma_vars(before);
        let o = spec_outline(before);
        lemma_inv_extend(nodes, m, o);
        let n = nodes[m];
        assert(n == nodes.last());
        let r = spec_outline(nodes);
        assert(r == node_step(o, n, m));
        lemma_names_differ();
        lemma_var_is_no_element();
        let name = n.name@;
        if reserved(n) || (name != "var"@ && name != "pull"@) {
            if name == "var"@ && has_property(n.entries@) {
                lemma_var_entries_keeps(o, n.entries@, m);
            }
            assert(r.vars == o.vars && r.pulls == o.pulls);
            lemma_inv_no_declaration(nodes, m, o, r);
        } else if name == "var"@ {
            if has_property(n.entries@) {
                let es = n.entries@;
                lemma_var_node(nodes, m, o, es.len() as int);
                assert(es.take(es.len() as int) =~= es);
                assert forall|i: int, e: Option<int>, nm: Seq<char>| #[trigger] declares(nodes, i, e, nm)
                    && read_so_far(m + 1, 0, i, e) implies has_var(r.vars, nm) by {
                    assert(read_so_far(m, es.len() as int, i, e));
                }
            } else {
                assert forall|e: Option<int>, nm: Seq<char>| !#[trigger] declares(nodes, m, e, nm) by {
                    if declares(nodes, m, e, nm) {
                        let j = e->0;
                        assert(n.entries@[j].name is Some);
                    }
                }
                lemma_inv_no_declaration(nodes, m, o, r);
            }
        } else {
            match spec_build_pull(n.entries@) {
                Err(_) => {
                    lemma_inv_no_declaration(nodes, m, o, r);
                },
                Ok((id, command, ms, default)) => {
                    if has_var(o.vars, id) || has_pull(o.pulls, id) {
                        if has_pull(o.pulls, id) {
                            let p = choose|p: int| 0 <= p < o.pulls.len() && (#[trigger] o.pulls[p]).name == id;
                            assert(has_var(o.vars, o.pulls[p].name));
                        }
                        assert forall|i: int, e: Option<int>, nm: Seq<char>| #[trigger] declares(nodes, i, e, nm)
                            && read_so_far(m + 1, 0, i, e) implies has_var(r.vars, nm) by {
                            if i < m {
                                assert(read_so_far(m, 0, i, e));
                            }
                        }
                    } else {
                        let nv = VarDefView { name: id, node: m, entry: None };
                        assert(r.vars == o.vars.push(nv));
                        assert(declares(nodes, m, None, id));
                        assert forall|i2: int, e2: Option<int>| before_in_document(i2, e2, m, None)
                            implies !#[trigger] declares(nodes, i2, e2, id) by {
                            if declares(nodes, i2, e2, id) {
                                assert(read_so_far(m, 0, i2, e2));
                            }
                        }
                        assert forall|v: int| 0 <= v < r.vars.len() implies {
                            let y = #[trigger] r.vars[v];
                            first_declaration(nodes, y.name, y.node, y.entry) && read_so_far(m + 1, 0, y.node, y.entry)
                        } by {
                            if v < o.vars.len() {
                                assert(r.vars[v] == o.vars[v]);
                            }
                        }
                        assert forall|i: int, e: Option<int>, nm: Seq<char>| #[trigger] declares(nodes, i, e, nm)
                            && read_so_far(m + 1, 0, i, e) implies has_var(r.vars, nm) by {
                            if i < m {
                                assert(read_so_far(m, 0, i, e));
                                let w = choose|w: int| 0 <= w < o.vars.len() && (#[trigger] o.vars[w]).name == nm;
                                assert(r.vars[w] == o.vars[w]);
                            } else {
                                assert(r.vars[o.vars.len() as int] == nv);
                            }
                        }
                        assert forall|p: int| 0 <= p < r.pulls.len() implies has_var(r.vars, (#[trigger] r.pulls[p]).name) by {
                            if p < o.pulls.len() {
                                assert(r.pulls[p] == o.pulls[p]);
                                let w = choose|w: int| 0 <= w < o.vars.len() && (#[trigger] o.vars[w]).name == o.pulls[p].name;
                                assert(r.vars[w] == o.vars[w]);
                            } else {
                                assert(r.vars[o.vars.len() as int] == nv);
                            }
                        }
                    }
                },
            }
        }
    }
}

/// The first declaration of a variable wins: the outline holds the
/// variable `name` from property `e` of node `i` (a pull when `e` is none)
/// exactly when that is the first declaration of `name` in the document,
/// `var` properties and pulls alike.
pub proof fn law_first_variable_declaration_wins(nodes: Seq<Node>, name: Seq<char>, i: int, e: Option<int>)
    ensures
        spec_outline(nodes).vars.contains(VarDefView { name, node: i, entry: e }) <==> first_declaration(nodes, name, i, e),
{
    lemma_vars(nodes);
    let r = spec_outline(nodes);
    let x = VarDefView { name, node: i, entry: e };
    if r.vars.contains(x) {
        let v = choose|v: int| 0 <= v < r.vars.len() && r.vars[v] == x;
        assert(r.vars[v] == x);
    }
    if first_declaration(nodes, name, i, e) {
        assert(declares(nodes, i, e, name) && read_so_far(nodes.len() as int, 0, i, e));
        let w = choose|w: int| 0 <= w < r.vars.len() && (#[trigger] r.vars[w]).name == name;
        let y = r.vars[w];
        assert(first_declaration(nodes, y.name, y.node, y.entry));
        if before_in_document(y.node, y.entry, i, e) {
            assert(!declares(nodes, y.node, y.entry, name));
        }
        if before_in_document(i, e, y.node, y.entry) {
            assert(!declares(nodes, i, e, name));
        }
        assert(y.node == i);
        assert(y.entry == e);
        assert(r.vars[w] == x);
    }
}

/// No problem is an error (warnings may remain).
pub open spec fn no_errors(issues: Seq<IssueView>) -> bool {
    forall|i: int| 0 <= i < issues.len() ==> (#[trigger] issues[i]).severity != Severity::Error
}

/// The problem reported for text that is not a KDL document: an error at
/// the start of the document (node 0, no entry) with the reader's message.
pub open spec fn syntax_issue(m: Seq<char>) -> IssueView {
    IssueView {
        kind: ConfigErrorKind::Syntax,
        severity: Severity::Error,
        message: "KDL syntax error: "@ + m,
        node: 0,
        entry: None,
        child: None,
    }
}

fn copy_issues(v: &Vec<Issue>) -> (r: Vec<Issue>)
    ensures
        issues_view(r@) == issues_view(v@),
{
    let mut out: Vec<Issue> = Vec::new();
    let mut i: usize = 0;
    while i < v.len()
        invariant
            i <= v@.len(),
            issues_view(out@) == issues_view(v@.take(i as int)),
        decreases v@.len() - i,
    {
        let it = Issue {
            kind: v[i].kind,
            severity: v[i].severity,
            message: v[i].message.clone(),
            node: v[i].node,
            entry: v[i].entry,
            child: v[i].child,
        };
        let ghost before = out@;
        out.push(it);
        proof {
            assert(issues_view(before.push(it)) =~= issues_view(before).push(issue_view(it)));
            assert(issues_view(v@.take(i + 1)) =~= issues_view(v@.take(i as int)).push(issue_view(v@[i as int])));
        }
        i = i + 1;
    }
    proof {
        assert(v@.take(i as int) =~= v@);
    }
    out
}

/// Reads configuration text: the outline of its KDL document when nothing
/// in it is an error, and every problem found (the warnings too). Text
/// that is not a KDL document gives no outline and one syntax error. The
/// problems are placed by node; `source_label` names the text in reports
/// made from them.
pub fn parse_str(input: &str, source_label: &str) -> (r: (Option<Outline>, Vec<Issue>))
    ensures
        match kdl_document(input@) {
            Ok(ns) => {
                &&& issues_view(r.1@) == spec_outline(ns).issues
                &&& (r.0 is Some <==> no_errors(spec_outline(ns).issues))
                &&& (r.0 matches Some(o) ==> o@ == spec_outline(ns))
            },
            Err(m) => r.0 is None && issues_view(r.1@) == seq![syntax_issue(m)],
        },
{
    match read_kdl(input) {
        Ok(nodes) => {
            let outline = parse_document(nodes.as_slice());
            let issues = copy_issues(&outline.issues);
            let mut has_error = false;
            let mut i: usize = 0;
            while i < outline.issues.len()
                invariant
                    i <= outline.issues@.len(),
                    has_error == (exists|j: int| 0 <= j < i && (#[trigger] outline.issues@[j]).severity == Severity::Error),
                decreases outline.issues@.len() - i,
            {
                if outline.issues[i].severity == Severity::Error {
                    has_error = true;
                }
                i = i + 1;
            }
            proof {
                let iv = issues_view(outline.issues@);
                if has_error {
                    let j = choose|j: int| 0 <= j < i && (#[trigger] outline.issues@[j]).severity == Severity::Error;
                    assert(iv[j].severity == Severity::Error);
                } else {
                    assert forall|j: int| 0 <= j < iv.len() implies (#[trigger] iv[j]).severity != Severity::Error by {
                        assert(outline.issues@[j].severity != Severity::Error);
                    }
                }
            }
            if has_error {
                (None, issues)
            } else {
                (Some(outline), issues)
            }
        },
        Err(m) => {
            let mut msg = owned("KDL syntax error: ");
            push_str(&mut msg, m.as_str());
            let it = Issue { kind: ConfigErrorKind::Syntax, severity: Severity::Error, message: msg, node: 0, entry: None, child: None };
            let mut issues: Vec<Issue> = Vec::new();
            issues.push(it);
            proof {
                assert(issues_view(issues@) =~= seq![syntax_issue(m@)]);
            }
            (None, issues)
        },
    }
}

proof fn lemma_var_entries_issues_grow(o: OutlineView, es: Seq<Entry>, node: int)
    ensures
        var_entries(o, es, node).issues.len() >= o.issues.len(),
        var_entries(o, es, node).issues.take(o.issues.len() as int) == o.issues,
    decreases es.len(),
{
    if es.len() > 0 {
        lemma_var_entries_issues_grow(o, es.drop_last(), node);
        let b = var_entries(o, es.drop_last(), node);
        let r = var_entries(o, es, node);
        assert(r.issues.take(o.issues.len() as int) =~= b.issues.take(o.issues.len() as int));
    }
}

proof fn lemma_issues_grow(nodes: Seq<Node>, m: int)
    requires
        0 <= m <= nodes.len(),
    ensures
        spec_outline(nodes).issues.len() >= spec_outline(nodes.take(m)).issues.len(),
        spec_outline(nodes).issues.take(spec_outline(nodes.take(m)).issues.len() as int) == spec_outline(nodes.take(m)).issues,
    decreases nodes.len() - m,
{
    if m == nodes.len() {
        assert(nodes.take(m) =~= nodes);
        assert(spec_outline(nodes).issues.take(spec_outline(nodes).issues.len() as int) =~= spec_outline(nodes).issues);
    } else {
        lemma_issues_grow(nodes, m + 1);
        let p = nodes.take(m + 1);
        assert(p.drop_last() =~= nodes.take(m));
        let o = spec_outline(nodes.take(m));
        let n = p.last();
        if n.name@ == "var"@ && has_property(n.entries@) && !reserved(n) {
            lemma_var_entries_issues_grow(o, n.entries@, m);
        }
        let mid = spec_outline(p).issues;
        let full = spec_outline(nodes).issues;
        assert(mid.len() >= o.issues.len());
        assert(mid.take(o.issues.len() as int) =~= o.issues);
        assert(full.take(o.issues.len() as int) =~= mid.take(o.issues.len() as int));
    }
}

/// A later definition of an element id is still built, and then
/// discarded: reading node `i`, which defines the element `k`/`id` that
/// node `j` defined before it, reports the problems of its fields (as
/// errors, in order) and then the warning
/// `<kind> <id> is defined twice, using first`, and nothing else; the
/// duplication itself adds no error. All of these are among the problems
/// of the whole document.
pub proof fn law_duplicate_element_warned(nodes: Seq<Node>, k: ElementKind, id: Seq<char>, j: int, i: int)
    requires
        0 <= j < i < nodes.len(),
        defines(nodes[j], k, id),
        defines(nodes[i], k, id),
    ensures
        spec_outline(nodes.take(i + 1)) == with_issue(
            with_problems(spec_outline(nodes.take(i)), node_problems(Form::Element(k), nodes[i]), i),
            ConfigErrorKind::DuplicateElement, Severity::Warning, twice_message(kind_name(k) + " "@ + id), i, None),
        spec_outline(nodes).issues.contains(IssueView {
            kind: ConfigErrorKind::DuplicateElement,
            severity: Severity::Warning,
            message: twice_message(kind_name(k) + " "@ + id),
            node: i,
            entry: None,
            child: None,
        }),
        forall|q: int| 0 <= q < node_problems(Form::Element(k), nodes[i]).len() ==> {
            let p = #[trigger] node_problems(Form::Element(k), nodes[i])[q];
            spec_outline(nodes).issues.contains(IssueView {
                kind: p.kind,
                severity: Severity::Error,
                message: p.message,
                node: i,
                entry: p.entry,
                child: p.child,
            })
        },
{
    let before = nodes.take(i);
    let p = nodes.take(i + 1);
    assert(p.drop_last() =~= before);
    assert(p.last() == nodes[i]);
    lemma_elements(before);
    assert(before[j] == nodes[j]);
    lemma_var_is_no_element();
    let o = spec_outline(before);
    assert(has_element(o.elements, k, id));
    let r = spec_outline(p);
    assert(r == node_step(o, nodes[i], i));
    lemma_issues_grow(nodes, i + 1);
    let x = IssueView {
        kind: ConfigErrorKind::DuplicateElement,
        severity: Severity::Warning,
        message: twice_message(kind_name(k) + " "@ + id),
        node: i,
        entry: None,
        child: None,
    };
    assert(r.issues[r.issues.len() - 1] == x);
    assert(spec_outline(nodes).issues[r.issues.len() - 1] == spec_outline(nodes).issues.take(r.issues.len() as int)[r.issues.len() - 1]);
    let ps = node_problems(Form::Element(k), nodes[i]);
    let full = spec_outline(nodes).issues;
    assert forall|q: int| 0 <= q < ps.len() implies {
        let p = #[trigger] ps[q];
        full.contains(IssueView { kind: p.kind, severity: Severity::Error, message: p.message, node: i, entry: p.entry, child: p.child })
    } by {
        let at = o.issues.len() + q;
        assert(r.issues[at] == IssueView { kind: ps[q].kind, severity: Severity::Error, message: ps[q].message, node: i,
            entry: ps[q].entry, child: ps[q].child });
        assert(full[at] == full.take(r.issues.len() as int)[at]);
    }
}


/// No element keeps the id `apptray`, which names the tray: a definition
/// with that id is refused, whatever its kind.
pub proof fn law_apptray_is_reserved(nodes: Seq<Node>)
    ensures
        forall|e: int| 0 <= e < spec_outline(nodes).elements.len() ==> (#[trigger] spec_outline(nodes).elements[e]).id != "apptray"@,
{
    reveal_strlit("apptray");
    reveal_strlit("widget");
    reveal_strlit("container");
    reveal_strlit("style");
    reveal_strlit("border");
    reveal_strlit("shadow");
    reveal_strlit("font");
    reveal_strlit("button");
    reveal_strlit("row");
    reveal_strlit("column");
    reveal_strlit("text");
    assert("widget"@ != "apptray"@) by { assert("widget"@.len() != "apptray"@.len()); }
    assert("container"@ != "apptray"@) by { assert("container"@.len() != "apptray"@.len()); }
    assert("style"@ != "apptray"@) by { assert("style"@.len() != "apptray"@.len()); }
    assert("border"@ != "apptray"@) by { assert("border"@.len() != "apptray"@.len()); }
    assert("shadow"@ != "apptray"@) by { assert("shadow"@.len() != "apptray"@.len()); }
    assert("font"@ != "apptray"@) by { assert("font"@.len() != "apptray"@.len()); }
    assert("button"@ != "apptray"@) by { assert("button"@.len() != "apptray"@.len()); }
    assert("row"@ != "apptray"@) by { assert("row"@.len() != "apptray"@.len()); }
    assert("column"@ != "apptray"@) by { assert("column"@.len() != "apptray"@.len()); }
    assert("text"@ != "apptray"@) by { assert("text"@.len() != "apptray"@.len()); }
    lemma_elements(nodes);
    assert forall|e: int| 0 <= e < spec_outline(nodes).elements.len() implies (#[trigger] spec_outline(nodes).elements[e]).id != "apptray"@ by {
        let x = spec_outline(nodes).elements[e];
        assert(first_definition(nodes, x.kind, x.id, x.node));
        let n = nodes[x.node];
        assert(defines(n, x.kind, x.id));
        assert(element_kind(n.name@) is Some);
        assert(n.name@ != "apptray"@);
    }
}

} // verus!

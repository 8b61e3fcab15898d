use iwwc::config::document::{element_kind_of, parse_document, ElementKind, Outline};
use iwwc::config::parser::{Entry, KdlScalar, Node};
use iwwc::config::{ConfigErrorKind, Severity};
use std::time::Duration;

fn arg(v: &str) -> Entry {
    Entry { name: None, value: KdlScalar::String(v.into()) }
}

fn prop(k: &str, v: KdlScalar) -> Entry {
    Entry { name: Some(k.into()), value: v }
}

fn s(v: &str) -> KdlScalar {
    KdlScalar::String(v.into())
}

fn node(name: &str, entries: Vec<Entry>) -> Node {
    Node { name: name.into(), entries, children: None }
}

fn messages(o: &Outline) -> Vec<String> {
    o.issues.iter().map(|i| i.message.clone()).collect()
}

#[test]
fn element_kinds_by_name() {
    assert_eq!(element_kind_of("widget"), Some(ElementKind::Widget));
    assert_eq!(element_kind_of("text"), Some(ElementKind::Text));
    assert_eq!(element_kind_of("var"), None);
    assert_eq!(element_kind_of("apptray"), None);
}

#[test]
fn variables_first_declaration_wins() {
    let o = parse_document(&[
        node("var", vec![prop("x", KdlScalar::Integer(1)), prop("y", s("a"))]),
        node("var", vec![prop("x", KdlScalar::Integer(2))]),
        node("var", vec![arg("positional only")]),
        node("var", vec![prop("z", KdlScalar::Null)]),
    ]);
    let names: Vec<(String, usize, Option<usize>)> = o.vars.iter().map(|v| (v.name.clone(), v.node, v.entry)).collect();
    assert_eq!(names, vec![("x".to_string(), 0, Some(0)), ("y".to_string(), 0, Some(1))]);
    assert_eq!(
        messages(&o),
        vec![
            "variable x is defined twice, using first",
            "variable declaration requires a value",
            "variable declaration requires a value",
        ]
    );
    assert_eq!(o.issues[0].kind, ConfigErrorKind::DuplicateVariable);
    assert_eq!(o.issues[0].severity, Severity::Warning);
    assert_eq!((o.issues[0].node, o.issues[0].entry), (1, Some(0)));
    assert_eq!((o.issues[1].node, o.issues[1].entry), (2, None));
    assert_eq!((o.issues[2].node, o.issues[2].entry), (3, Some(0)));
    assert_eq!(o.issues[2].kind, ConfigErrorKind::VariableMissingValue);
}

#[test]
fn pulls_share_the_variable_names() {
    let o = parse_document(&[
        node("pull", vec![prop("dt", s("date")), prop("i", s("1s"))]),
        node("pull", vec![prop("dt", s("date")), prop("i", s("2s"))]),
        node("var", vec![prop("dt", s("x"))]),
        node("pull", vec![prop("dt", s("date"))]),
    ]);
    assert_eq!(o.pulls.len(), 1);
    assert_eq!(o.pulls[0].name, "dt");
    assert_eq!(o.pulls[0].decl.interval, Duration::from_secs(1));
    assert_eq!(o.vars.len(), 1);
    assert_eq!(o.vars[0].entry, None);
    assert_eq!(
        messages(&o),
        vec![
            "variable dt is defined twice, using first",
            "variable dt is defined twice, using first",
            "pull requires an interval (i= or interval=)",
        ]
    );
    assert_eq!(o.issues[2].kind, ConfigErrorKind::InvalidFieldType);
}

#[test]
fn elements_first_definition_wins() {
    let o = parse_document(&[
        node("text", vec![arg("t1")]),
        node("text", vec![arg("t1")]),
        node("container", vec![arg("t1")]),
        node("row", vec![]),
        node("button", vec![arg("apptray")]),
    ]);
    let defs: Vec<(ElementKind, String, usize)> = o.elements.iter().map(|e| (e.kind, e.id.clone(), e.node)).collect();
    assert_eq!(
        defs,
        vec![(ElementKind::Text, "t1".to_string(), 0), (ElementKind::Container, "t1".to_string(), 2)]
    );
    assert_eq!(
        messages(&o),
        vec!["text t1 is defined twice, using first", "child is required", "\"apptray\" is a reserved id"]
    );
    assert_eq!(o.issues[1].severity, Severity::Error);
    assert_eq!(o.issues[1].kind, ConfigErrorKind::MissingRequiredField);
    assert_eq!((o.issues[1].node, o.issues[1].entry), (2, None));
    assert_eq!(o.issues[2].severity, Severity::Error);
    assert_eq!(o.issues[2].node, 4);
}

#[test]
fn blocks_and_unknown_nodes() {
    let o = parse_document(&[
        node("notification", vec![]),
        node("notification", vec![]),
        node("apptray", vec![]),
        node("apptray", vec![arg("apptray")]),
        node("icon_theme", vec![arg("Papirus")]),
        node("icon_theme", vec![arg("Other")]),
        node("icon_theme", vec![]),
        node("frobnicate", vec![]),
    ]);
    assert_eq!(o.notification, Some(0));
    assert_eq!(o.apptray, Some(2));
    assert_eq!(o.icon_theme, Some("Papirus".to_string()));
    assert_eq!(
        messages(&o),
        vec![
            "notification block is defined twice, using first",
            "apptray block is defined twice, using first",
            "icon_theme is defined twice, using first",
            "icon_theme requires a string value, e.g. icon_theme \"Gruvbox-Plus-Dark\"",
            "unknown node \"frobnicate\"",
        ]
    );
    assert_eq!(o.issues[3].kind, ConfigErrorKind::MissingRequiredField);
    assert_eq!(o.issues[3].severity, Severity::Warning);
    assert_eq!(o.issues[4].kind, ConfigErrorKind::UnknownNode);
}

/// A node of `kind` with id `id` whose required fields are all given.
fn complete(kind: &str, id: &str) -> Node {
    match kind {
        "container" => node(kind, vec![arg(id), prop("child", s("c"))]),
        "row" | "column" => Node {
            name: kind.into(),
            entries: vec![arg(id)],
            children: Some(vec![node("children", vec![arg("a"), arg("b")])]),
        },
        _ => node(kind, vec![arg(id)]),
    }
}

#[test]
fn each_kind_warns_on_a_second_definition() {
    for kind in ["widget", "container", "style", "border", "shadow", "font", "button", "row", "column", "text"] {
        let o = parse_document(&[complete(kind, "e1"), complete(kind, "e1")]);
        assert_eq!(o.elements.len(), 1);
        assert_eq!(o.elements[0].node, 0);
        assert_eq!(messages(&o), vec![format!("{kind} e1 is defined twice, using first")]);
        assert_eq!(o.issues[0].severity, Severity::Warning);
        assert_eq!(o.issues[0].kind, ConfigErrorKind::DuplicateElement);
        assert_eq!(o.issues[0].node, 1);
    }
}

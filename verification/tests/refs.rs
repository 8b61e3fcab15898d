use iwwc::config::document::ElementKind;
use iwwc::config::parse_str;
use iwwc::config::resolver::table::{lookup_positions, single_element, unused_candidates};
use iwwc::config::resolver::refs::{resolve, resolve_ref, Content, RefTable, Referent, Step};
use iwwc::config::{ConfigErrorKind, Severity};

fn el(id: &str, kind: ElementKind, content: Content) -> Referent {
    Referent { id: id.into(), kind, content }
}

fn ids(v: &[&str]) -> Vec<String> {
    v.iter().map(|s| s.to_string()).collect()
}

/// The steps written as a string: `kind:id(` for an opening, `)` for a close.
fn shape(steps: &[Step]) -> String {
    steps
        .iter()
        .map(|s| match s {
            Step::Open(Some(k), id) => format!("{:?}:{}(", k, id),
            Step::Open(None, id) => format!("{}(", id),
            Step::Close => ")".to_string(),
        })
        .collect()
}

fn table() -> RefTable {
    RefTable {
        elements: vec![
            el("t1", ElementKind::Text, Content::Leaf),
            el("box", ElementKind::Container, Content::Child(Some("t1".into()))),
            el("r", ElementKind::Row, Content::Children(ids(&["box", "missing", "apptray", "label"]))),
            el("loop1", ElementKind::Container, Content::Child(Some("loop2".into()))),
            el("loop2", ElementKind::Button, Content::Child(Some("loop1".into()))),
            el("empty", ElementKind::Container, Content::Child(None)),
        ],
        aliases: vec![
            ("label".into(), "t1".into()),
            ("self".into(), "self".into()),
            ("x".into(), "container box1 child=label".into()),
        ],
        fragments: vec![
            ("container box1 child=label".into(), el("box1", ElementKind::Container, Content::Child(Some("label".into())))),
            ("row z".into(), el("z", ElementKind::Row, Content::Children(ids(&["a much longer reference than the text"])))),
        ],
    }
}

#[test]
fn references_resolve_to_trees() {
    let t = table();
    let mut path = Vec::new();
    let mut used = Vec::new();
    let (steps, errs) = resolve_ref(&t, "r", &mut path, &mut used);
    assert!(path.is_empty());
    assert_eq!(
        shape(&steps.unwrap()),
        "Row:r(Container:box(Text:t1())apptray()Text:t1())"
    );
    let msgs: Vec<(ConfigErrorKind, String)> = errs.into_iter().map(|e| (e.kind, e.message)).collect();
    assert_eq!(msgs, vec![(ConfigErrorKind::UnresolvedReference, "unresolved reference \"missing\"".to_string())]);
    assert_eq!(used, ids(&["r", "box", "t1", "label", "t1"]));
}

#[test]
fn cycles_are_reported_and_end() {
    let t = table();
    let mut used = Vec::new();
    let (steps, errs) = resolve_ref(&t, "loop1", &mut Vec::new(), &mut used);
    assert!(steps.is_none());
    assert_eq!(errs.len(), 1);
    assert_eq!(errs[0].kind, ConfigErrorKind::CircularReference);
    assert_eq!(errs[0].message, "circular reference detected at \"loop1\"");
    assert_eq!(used, ids(&["loop1", "loop2"]));
    let (steps, errs) = resolve_ref(&t, "self", &mut Vec::new(), &mut Vec::new());
    assert!(steps.is_none());
    assert_eq!(errs[0].message, "circular reference detected at \"self\"");
}

#[test]
fn a_container_without_a_child_does_not_resolve() {
    let t = table();
    let (steps, errs) = resolve_ref(&t, "empty", &mut Vec::new(), &mut Vec::new());
    assert!(steps.is_none());
    assert!(errs.is_empty());
}

#[test]
fn resolution_succeeds_exactly_without_errors() {
    let t = table();
    let decls = vec![("x".to_string(), true), ("t1".to_string(), false), ("loop1".to_string(), false)];
    let (ok, issues) = resolve(&t, &vec![Some("box".into()), None], &decls, &ids(&["x"]));
    let trees = ok.expect("nothing fails");
    assert_eq!(shape(trees[0].as_ref().unwrap()), "Container:box(Text:t1())");
    assert!(trees[1].is_none());
    let found: Vec<(Severity, &str)> = issues.iter().map(|i| (i.severity, i.message.as_str())).collect();
    assert_eq!(found, vec![(Severity::Warning, "element \"loop1\" is defined but never used")]);
    let (none, issues) = resolve(&t, &vec![Some("nope".into())], &decls, &vec![]);
    assert!(none.is_none());
    let found: Vec<(Severity, &str)> = issues.iter().map(|i| (i.severity, i.message.as_str())).collect();
    assert_eq!(
        found,
        vec![
            (Severity::Error, "unresolved reference \"nope\""),
            (Severity::Warning, "variable \"x\" is defined but never used"),
            (Severity::Warning, "element \"t1\" is defined but never used"),
            (Severity::Warning, "element \"loop1\" is defined but never used"),
        ]
    );
}

#[test]
fn a_text_defining_one_element_stands_for_it() {
    let t = table();
    let mut used = Vec::new();
    let (steps, errs) = resolve_ref(&t, "x", &mut Vec::new(), &mut used);
    assert!(errs.is_empty());
    assert_eq!(shape(&steps.unwrap()), "Container:box1(Text:t1())");
    assert_eq!(used, ids(&["x", "label", "t1"]));
    let (steps, errs) = resolve_ref(&t, "row z", &mut Vec::new(), &mut Vec::new());
    assert!(steps.is_none());
    assert_eq!(errs[0].message, "unresolved reference \"row z\"");
}

#[test]
fn a_child_listed_twice_appears_twice() {
    let t = RefTable {
        elements: vec![
            el("t1", ElementKind::Text, Content::Leaf),
            el("b", ElementKind::Button, Content::Leaf),
            el("c1", ElementKind::Column, Content::Children(ids(&["b", "b"]))),
        ],
        aliases: vec![],
        fragments: vec![],
    };
    let (ok, issues) = resolve(&t, &vec![Some("c1".into())], &vec![("t1".to_string(), false)], &vec![]);
    let trees = ok.expect("nothing fails");
    assert_eq!(shape(trees[0].as_ref().unwrap()), "Column:c1(Button:b()Button:b())");
    assert_eq!(issues.len(), 1);
    assert_eq!(issues[0].kind, ConfigErrorKind::UnusedElement);
    assert_eq!(issues[0].message, "element \"t1\" is defined but never used");
}

#[test]
fn lookup_order_and_unused_candidates_of_a_document() {
    let (outline, _) = parse_str(
        "var v=1\nrow r { children t1; }\ntext t1\nstyle s\ncontainer c child=t1\nwidget w child=c\nfont f",
        "<test>",
    );
    let o = outline.expect("no errors");
    let order: Vec<&str> = lookup_positions(&o).into_iter().map(|p| o.elements[p].id.as_str()).collect();
    assert_eq!(order, vec!["t1", "c", "r"]);
    assert_eq!(single_element(&o), None);
    let decls: Vec<(String, bool)> = unused_candidates(&o);
    assert_eq!(
        decls,
        vec![
            ("v".to_string(), true),
            ("c".to_string(), false),
            ("r".to_string(), false),
            ("t1".to_string(), false),
            ("s".to_string(), false),
        ]
    );
    let (one, _) = parse_str("container box1 child=t1", "<test>");
    let one = one.expect("one element");
    assert_eq!(single_element(&one).map(|p| one.elements[p].id.clone()), Some("box1".to_string()));
}

use iwwc::config::resolver::unused_warnings;
use iwwc::config::ConfigErrorKind;
use iwwc::config::resolver::vars::{resolution_plan, ResolveStep, VarSource};

fn var(name: &str, text: Option<&str>) -> VarSource {
    VarSource { name: name.into(), text: text.map(|t| t.to_string()) }
}

#[test]
fn dependencies_come_first() {
    let d = vec![var("y", None), var("x", Some("${y/2}"))];
    let (steps, used) = resolution_plan(&d, &[]);
    assert_eq!(steps, vec![ResolveStep::Evaluate(0), ResolveStep::Evaluate(1)]);
    assert_eq!(used, vec![true, false]);

    let d = vec![var("x", Some("${y}")), var("y", None)];
    let (steps, _) = resolution_plan(&d, &[]);
    assert_eq!(steps, vec![ResolveStep::Evaluate(1), ResolveStep::Evaluate(0)]);
}

#[test]
fn circular_vars_error() {
    let d = vec![var("a", Some("${b}")), var("b", Some("${a}"))];
    let (steps, used) = resolution_plan(&d, &[]);
    assert_eq!(
        steps,
        vec![ResolveStep::Circular(0), ResolveStep::Evaluate(1), ResolveStep::Evaluate(0)]
    );
    assert_eq!(used, vec![true, true]);
}

#[test]
fn self_and_unknown_references_are_skipped() {
    let d = vec![var("a", Some("${a + zzz}")), var("b", Some("plain text"))];
    let (steps, used) = resolution_plan(&d, &[]);
    assert_eq!(steps, vec![ResolveStep::Evaluate(0), ResolveStep::Evaluate(1)]);
    assert_eq!(used, vec![false, false]);
}

#[test]
fn preset_variables_are_not_evaluated() {
    let d = vec![var("iwwc.activesong", Some("x")), var("t", Some("${iwwc.activesong}"))];
    let (steps, used) = resolution_plan(&d, &["iwwc.activesong".to_string()]);
    assert_eq!(steps, vec![ResolveStep::Evaluate(1)]);
    assert_eq!(used, vec![true, false]);
}

#[test]
fn longer_chain() {
    let d = vec![
        var("c", Some("${b}+1")),
        var("b", Some("${a}*2")),
        var("a", None),
        var("d", Some("${c} ${a}")),
    ];
    let (steps, used) = resolution_plan(&d, &[]);
    assert_eq!(
        steps,
        vec![
            ResolveStep::Evaluate(2),
            ResolveStep::Evaluate(1),
            ResolveStep::Evaluate(0),
            ResolveStep::Evaluate(3)
        ]
    );
    assert_eq!(used, vec![true, true, true, false]);
}

#[test]
fn unused_definitions_warn_in_order() {
    use_unused();
}

fn use_unused() {
    let decls = vec![("x".to_string(), true), ("t1".to_string(), false), ("t2".to_string(), false)];
    let used = vec!["t1".to_string()];
    assert_eq!(
        unused_warnings(&decls, &used),
        vec![
            (ConfigErrorKind::UnusedVariable, "variable \"x\" is defined but never used".to_string()),
            (ConfigErrorKind::UnusedElement, "element \"t2\" is defined but never used".to_string()),
        ]
    );
    assert!(unused_warnings(&decls, &["x".to_string(), "t1".to_string(), "t2".to_string()]).is_empty());
}

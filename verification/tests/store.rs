use iwwc::config::primitives::parse_anchor;
use iwwc::config::math::evaluator::Operand;
use iwwc::config::store::{
    parse_value, surface_errors, unknown_variable_message, update_value, validate_surfaces, RawValue, ReloadError, Store,
    SurfaceSpec, UpdateError,
};
use iwwc::config::types::{SourceText, Span};
use iwwc::config::{ConfigError, ConfigErrorKind, Severity};

fn spec(name: &str, anchor: Option<&str>, w: u32, h: u32) -> SurfaceSpec {
    SurfaceSpec { name: name.into(), anchor: anchor.map(|a| parse_anchor(a).unwrap()), w, h }
}

/// The surface problems of one widget `bar`, checked as the whole set of
/// widgets; each must be an error of that widget.
fn errs(anchor: Option<&str>, w: u32, h: u32) -> Vec<(ConfigErrorKind, String)> {
    let found = validate_surfaces(&vec![spec("bar", anchor, w, h)]);
    assert!(found.iter().all(|i| i.severity == Severity::Error && i.widget == 0));
    let direct = surface_errors("bar", anchor.map(|a| parse_anchor(a).unwrap()), w, h);
    let all: Vec<(ConfigErrorKind, String)> = found.into_iter().map(|i| (i.kind, i.message)).collect();
    assert_eq!(all, direct);
    all
}

#[test]
fn validate_surfaces_single_top_anchor_full_width_ok() {
    assert!(errs(Some("t"), 0, 30).is_empty());
}

#[test]
fn validate_surfaces_single_left_without_w_errors() {
    let e = errs(Some("l"), 0, 30);
    assert!(e.iter().any(|(k, _)| *k == ConfigErrorKind::MissingSizeAnchor));
    assert_eq!(
        e[0].1,
        "widget \"bar\": anchor uses only one of left/right but w is not set; set w, or anchor t/b only to span the full width"
    );
}

#[test]
fn validate_surfaces_size_with_both_edges_conflicts() {
    let e = errs(Some("l | r"), 500, 30);
    assert!(e.iter().any(|(k, _)| *k == ConfigErrorKind::AnchorConflict));
}

#[test]
fn validate_surfaces_full_width_bar_ok() {
    assert!(errs(Some("t | l | r"), 0, 30).is_empty());
}

#[test]
fn validate_surfaces_explicit_width_ok() {
    assert!(errs(Some("t"), 1920, 30).is_empty());
}

#[test]
fn validate_surfaces_left_panel_full_height_ok() {
    assert!(errs(Some("l"), 300, 0).is_empty());
}

#[test]
fn validate_surfaces_full_screen_ok() {
    assert!(errs(Some("t | b | l | r"), 0, 0).is_empty());
}

#[test]
fn validate_surfaces_no_anchor_no_size_is_fullscreen_ok() {
    assert!(errs(None, 0, 0).is_empty());
}

#[test]
fn surface_errors_in_order() {
    let e = surface_errors("x", Some(parse_anchor("l | t | b").unwrap()), 0, 20);
    assert_eq!(e.len(), 2);
    assert_eq!(e[0].0, ConfigErrorKind::MissingSizeAnchor);
    assert_eq!(e[1].0, ConfigErrorKind::AnchorConflict);
    assert_eq!(
        e[1].1,
        "widget \"x\": h is set but anchor spans both top and bottom; remove h or one of the anchors"
    );
}

#[test]
fn parse_value_int() {
    assert_eq!(parse_value("5", false), RawValue::Int(5));
    assert_eq!(parse_value("-3", false), RawValue::Int(-3));
}

#[test]
fn parse_value_float() {
    assert_eq!(parse_value("2.5", true), RawValue::Decimal);
}

#[test]
fn parse_value_bool() {
    assert_eq!(parse_value("#true", false), RawValue::Bool(true));
    assert_eq!(parse_value("true", false), RawValue::Bool(true));
    assert_eq!(parse_value("#false", false), RawValue::Bool(false));
    assert_eq!(parse_value("false", false), RawValue::Bool(false));
}

#[test]
fn parse_value_string() {
    assert_eq!(parse_value("hello", false), RawValue::Str("hello".into()));
    assert_eq!(
        parse_value("container c1 child=t1", false),
        RawValue::Str("container c1 child=t1".into())
    );
    assert_eq!(parse_value("${x/2}", false), RawValue::Str("${x/2}".into()));
}

#[test]
fn update_toggles_booleans_only() {
    assert_eq!(update_value(&Operand::Bool(true), "toggle", false), RawValue::Bool(false));
    assert_eq!(update_value(&Operand::Bool(false), "toggle", false), RawValue::Bool(true));
    assert_eq!(update_value(&Operand::Int(1), "toggle", false), RawValue::Str("toggle".into()));
    assert_eq!(update_value(&Operand::Bool(false), "7", false), RawValue::Int(7));
}

#[test]
fn update_unknown_var_errors() {
    assert_eq!(unknown_variable_message("nope"), "variable \"nope\" is not defined");
}

#[test]
fn surfaces_of_several_widgets() {
    let found = validate_surfaces(&vec![
        spec("a", Some("l"), 0, 30),
        spec("b", None, 0, 0),
        spec("c", Some("t | b"), 10, 20),
        spec("d", Some("t | l | r"), 0, 30),
    ]);
    let got: Vec<(usize, ConfigErrorKind, Severity)> = found.iter().map(|i| (i.widget, i.kind, i.severity)).collect();
    assert_eq!(
        got,
        vec![
            (0, ConfigErrorKind::MissingSizeAnchor, Severity::Error),
            (2, ConfigErrorKind::AnchorConflict, Severity::Error),
        ]
    );
    assert_eq!(
        found[1].message,
        "widget \"c\": h is set but anchor spans both top and bottom; remove h or one of the anchors"
    );
    assert!(validate_surfaces(&vec![]).is_empty());
}

fn problem(message: &str, severity: Severity) -> ConfigError {
    ConfigError {
        kind: ConfigErrorKind::UnresolvedReference,
        span: Span { source: SourceText { label: "<t>".into(), text: String::new() }, offset: 0, len: 0 },
        message: message.into(),
        severity,
    }
}

fn messages(v: &[ConfigError]) -> Vec<String> {
    v.iter().map(|e| e.message.clone()).collect()
}

fn store() -> Store<String, u32> {
    match Store::new("v1".to_string(), Some(1), vec![problem("unused", Severity::Warning)]) {
        Ok(s) => s,
        Err(_) => panic!("a resolved configuration gives a store"),
    }
}

#[test]
fn store_new_needs_a_resolution() {
    let s = store();
    assert_eq!((s.config.as_str(), *s.resolved()), ("v1", 1));
    assert_eq!(messages(s.warnings()), vec!["unused"]);
    let refused = Store::<String, u32>::new("v".into(), None, vec![problem("unresolved reference \"nope\"", Severity::Error)]);
    match refused {
        Err(e) => assert_eq!(messages(&e), vec!["unresolved reference \"nope\""]),
        Ok(_) => panic!("no resolution gives no store"),
    }
}

#[test]
fn store_refresh_keeps_the_last_good_resolution() {
    let mut s = store();
    s.refresh(None, vec![problem("bad", Severity::Error)]);
    assert_eq!(*s.resolved(), 1);
    assert_eq!(messages(s.warnings()), vec!["unused"]);
    s.refresh(Some(2), vec![]);
    assert_eq!((s.config.as_str(), *s.resolved()), ("v1", 2));
    assert!(s.warnings().is_empty());
}

#[test]
fn store_update_changes_nothing_when_refused() {
    let mut s = store();
    match s.update("x", false, "v2".into(), Some(2), vec![]) {
        Err(UpdateError::UnknownVariable(n)) => assert_eq!(n, "x"),
        _ => panic!("an undeclared variable is refused"),
    }
    assert_eq!((s.config.as_str(), *s.resolved()), ("v1", 1));
    match s.update("x", true, "v2".into(), None, vec![problem("bad", Severity::Error)]) {
        Err(UpdateError::Invalid(e)) => assert_eq!(messages(&e), vec!["bad"]),
        _ => panic!("a candidate that does not resolve is refused"),
    }
    assert_eq!((s.config.as_str(), *s.resolved()), ("v1", 1));
    assert!(s.update("x", true, "v2".into(), Some(2), vec![]).is_ok());
    assert_eq!((s.config.as_str(), *s.resolved()), ("v2", 2));
    assert!(s.warnings().is_empty());
}

#[test]
fn store_reload_takes_only_a_sound_candidate() {
    let mut s = store();
    let r = s.reload(Err(vec!["cannot read c.kdl".into()]), Ok(store()), vec![]);
    assert!(matches!(r, Err(ReloadError::Load(ref l)) if l == &vec!["cannot read c.kdl".to_string()]));
    let r = s.reload(Ok(vec![]), Err(vec![problem("bad", Severity::Error)]), vec![]);
    assert!(matches!(r, Err(ReloadError::Invalid(ref e)) if messages(e) == vec!["bad"]));
    let good = Store::new("v3".to_string(), Some(3), vec![]).ok().unwrap();
    let r = s.reload(Ok(vec![]), Ok(good), vec![problem("widget \"bar\": ...", Severity::Error)]);
    assert!(matches!(r, Err(ReloadError::Invalid(ref e)) if e.len() == 1));
    assert_eq!((s.config.as_str(), *s.resolved()), ("v1", 1));
    let good = Store::new("v3".to_string(), Some(3), vec![problem("unused", Severity::Warning)]).ok().unwrap();
    let r = s.reload(Ok(vec![problem("defined twice", Severity::Warning)]), Ok(good), vec![]);
    match r {
        Ok(w) => assert_eq!(messages(&w), vec!["defined twice"]),
        Err(_) => panic!("a sound candidate is taken"),
    }
    assert_eq!((s.config.as_str(), *s.resolved()), ("v3", 3));
    assert_eq!(messages(s.warnings()), vec!["unused"]);
}

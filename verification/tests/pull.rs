use iwwc::config::parser::{build_pull, duplicate_message, first_positional_string, looks_like_expr, Entry, KdlScalar};
use std::time::Duration;

fn named(k: &str, v: &str) -> Entry {
    Entry { name: Some(k.into()), value: KdlScalar::String(v.into()) }
}

#[test]
fn pull_block() {
    let (name, d) = build_pull(&[named("dt", "date"), named("i", "1s")]).unwrap();
    assert_eq!(name, "dt");
    assert_eq!(d.command, "date");
    assert_eq!(d.interval, Duration::from_secs(1));
    assert_eq!(d.default, "");

    let (_, d) = build_pull(&[named("dt", "date"), named("interval", "500ms")]).unwrap();
    assert_eq!(d.interval, Duration::from_millis(500));

    let (_, d) = build_pull(&[named("dt", "date"), named("i", "1s"), named("default", "…")]).unwrap();
    assert_eq!(d.default, "…");

    assert_eq!(
        build_pull(&[named("dt", "date"), named("i", "1x")]).err().unwrap(),
        "invalid interval \"1x\""
    );
    assert_eq!(
        build_pull(&[named("dt", "date")]).err().unwrap(),
        "pull requires an interval (i= or interval=)"
    );
    assert_eq!(
        build_pull(&[named("i", "1s")]).err().unwrap(),
        "a pull must name exactly one variable"
    );
    assert_eq!(
        build_pull(&[named("a", "x"), named("b", "y"), named("i", "1s")]).err().unwrap(),
        "a pull must name exactly one variable"
    );
}

#[test]
fn pull_values_must_be_strings() {
    let no_text = |k: &str| Entry { name: Some(k.into()), value: KdlScalar::Null };
    assert_eq!(build_pull(&[no_text("i")]).err().unwrap(), "pull interval must be a string");
    assert_eq!(build_pull(&[no_text("default")]).err().unwrap(), "pull default must be a string");
    assert_eq!(
        build_pull(&[named("i", "1s"), no_text("dt")]).err().unwrap(),
        "pull command must be a string"
    );
    let positional = Entry { name: None, value: KdlScalar::String("ignored".into()) };
    assert!(build_pull(&[positional, named("dt", "date"), named("i", "2m")]).is_ok());
}

#[test]
fn field_and_node_helpers() {
    assert!(looks_like_expr("${x}"));
    assert!(looks_like_expr("a ${b"));
    assert!(!looks_like_expr("$ {x}"));
    assert!(!looks_like_expr("$"));
    let es = vec![named("k", "v"), Entry { name: None, value: KdlScalar::String("bar".into()) }];
    assert_eq!(first_positional_string(&es), Some("bar".to_string()));
    let es = vec![Entry { name: None, value: KdlScalar::Null }, Entry { name: None, value: KdlScalar::String("x".into()) }];
    assert_eq!(first_positional_string(&es), None);
    assert_eq!(duplicate_message("bar", "widget"), "widget bar is defined twice, using first");
}

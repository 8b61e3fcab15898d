use iwwc::config::types::{SourceText, Span};
use iwwc::config::{location, ConfigError, ConfigErrorKind, Severity};
use iwwc::number::decimal;

fn span(text: &str, offset: usize) -> Span {
    Span { source: SourceText { label: "c.kdl".into(), text: text.into() }, offset, len: 1 }
}

#[test]
fn render_error_and_warning() {
    let e = ConfigError {
        kind: ConfigErrorKind::UnusedElement,
        span: span("text a\ntext b", 7),
        message: "element \"b\" is never used".into(),
        severity: Severity::Warning,
    };
    assert_eq!(e.render(), "c.kdl:2:1: warning: element \"b\" is never used");
    let e = ConfigError { severity: Severity::Error, ..e };
    assert_eq!(e.render(), "c.kdl:2:1: error: element \"b\" is never used");
}

#[test]
fn location_counts_lines_and_columns() {
    assert_eq!(location(&span("abc", 2)), "c.kdl:1:3");
    assert_eq!(location(&span("a\nb\ncdef", 8)), "c.kdl:3:5");
}

#[test]
fn decimal_digits() {
    assert_eq!(decimal(0), "0");
    assert_eq!(decimal(7), "7");
    assert_eq!(decimal(10), "10");
    assert_eq!(decimal(1234567890), "1234567890");
    assert_eq!(decimal(usize::MAX), usize::MAX.to_string());
}

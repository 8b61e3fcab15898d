use iwwc::config::types::{SourceText, Span};

fn span_at(src: &'static str, offset: usize, len: usize) -> Span {
    Span {
        source: SourceText {
            label: "<t>".into(),
            text: src.into(),
        },
        offset,
        len,
    }
}

#[test]
fn span_line_col() {
    assert_eq!(span_at("", 0, 0).line_col(), (1, 1));
    assert_eq!(span_at("hello", 0, 0).line_col(), (1, 1));
    assert_eq!(span_at("hello", 3, 0).line_col(), (1, 4));
    assert_eq!(span_at("a\nb", 2, 0).line_col(), (2, 1));
    assert_eq!(span_at("a\nbc", 3, 0).line_col(), (2, 2));
    assert_eq!(span_at("é", 2, 0).line_col(), (1, 2));
    assert_eq!(span_at("ab", 999, 0).line_col(), (1, 3));
}

#[test]
fn span_line_col_counts_characters_across_lines() {
    assert_eq!(span_at("ab\n\ncdé f", 9, 1).line_col(), (3, 5));
    assert_eq!(span_at("\n\n\n", 3, 0).line_col(), (4, 1));
}

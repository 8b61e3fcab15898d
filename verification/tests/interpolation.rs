use iwwc::config::math::interpolation::{segments, InterpErrorKind, Segment};
use iwwc::config::math::single_expression;

fn collect(input: &'static str) -> Vec<Segment<'static>> {
    segments(input).unwrap()
}

#[test]
fn pure_expression() {
    let segs = collect("${x}");
    assert_eq!(segs.len(), 1);
    if let Segment::Expr { text, offset } = segs[0] {
        assert_eq!(text, "x");
        assert_eq!(offset, 2);
    } else {
        panic!("expected Expr");
    }
}

#[test]
fn pure_literal() {
    let segs = collect("hello");
    assert_eq!(segs.len(), 1);
    assert!(matches!(segs[0], Segment::Literal("hello")));
}

#[test]
fn mixed() {
    let segs = collect("hi ${x} bye");
    assert_eq!(segs.len(), 3);
    assert!(matches!(segs[0], Segment::Literal("hi ")));
    if let Segment::Expr { text, offset } = segs[1] {
        assert_eq!(text, "x");
        assert_eq!(offset, 5);
    } else {
        panic!("expected Expr");
    }
    assert!(matches!(segs[2], Segment::Literal(" bye")));
}

#[test]
fn brace_depth_in_call() {
    let segs = collect("${min(a, b)}");
    assert_eq!(segs.len(), 1);
    if let Segment::Expr { text, .. } = segs[0] {
        assert_eq!(text, "min(a, b)");
    } else {
        panic!("expected Expr");
    }
}

#[test]
fn multiple_blocks() {
    let segs = collect("${a} and ${b}");
    assert!(segs.len() == 3 || segs.len() == 4);
    if let Segment::Expr { text, .. } = segs[0] {
        assert_eq!(text, "a");
    } else {
        panic!();
    }
    assert!(matches!(segs[1], Segment::Literal(" and ")));
    if let Segment::Expr { text, .. } = segs[2] {
        assert_eq!(text, "b");
    } else {
        panic!();
    }
}

#[test]
fn empty_input() {
    let segs = collect("");
    assert!(segs.is_empty() || (segs.len() == 1 && matches!(segs[0], Segment::Literal(""))));
}

#[test]
fn unterminated() {
    let err = segments("${x").unwrap_err();
    assert_eq!(err.kind, InterpErrorKind::Unterminated);
}

#[test]
fn nested_rejected() {
    let err = segments("${${x}}").unwrap_err();
    assert_eq!(err.kind, InterpErrorKind::Nested);
}

#[test]
fn nested_braces_inside_block_are_kept() {
    let segs = collect("a${f({x})}b");
    assert_eq!(segs.len(), 3);
    assert_eq!(segs[1], Segment::Expr { text: "f({x})", offset: 3 });
    assert_eq!(segs[2], Segment::Literal("b"));
}

#[test]
fn unterminated_offset_points_at_dollar() {
    let err = segments("ab ${x").unwrap_err();
    assert_eq!(err.kind, InterpErrorKind::Unterminated);
    assert_eq!(err.offset, 3);
}

#[test]
fn nested_offset_points_at_inner_dollar() {
    let err = segments("${a ${b}}").unwrap_err();
    assert_eq!(err.offset, 4);
}

#[test]
fn non_ascii_literal_and_offsets_in_bytes() {
    let segs = collect("é${x}ü");
    assert_eq!(segs.len(), 3);
    assert_eq!(segs[0], Segment::Literal("é"));
    assert_eq!(segs[1], Segment::Expr { text: "x", offset: 4 });
    assert_eq!(segs[2], Segment::Literal("ü"));
}

#[test]
fn partition_law_on_concrete_input() {
    let input = "pre ${a + {b}} mid ${c}";
    let mut rebuilt = String::new();
    for s in collect(input) {
        match s {
            Segment::Literal(t) => rebuilt.push_str(t),
            Segment::Expr { text, .. } => {
                rebuilt.push_str("${");
                rebuilt.push_str(text);
                rebuilt.push('}');
            }
        }
    }
    assert_eq!(rebuilt, input);
}

#[test]
fn segments_split_cleanly() {
    let segs = collect("a${x}${y}b${ {c} }");
    for w in segs.windows(2) {
        assert!(!(matches!(w[0], Segment::Literal(_)) && matches!(w[1], Segment::Literal(_))));
    }
    for s in &segs {
        if let Segment::Literal(t) = s {
            assert!(!t.is_empty());
        }
    }
    assert_eq!(segs[4], Segment::Expr { text: " {c} ", offset: 12 });
    assert!(collect("").is_empty());
}

#[test]
fn lone_block_is_an_expression() {
    assert_eq!(single_expression(&collect("${x + 1}")), Some(("x + 1", 2)));
    assert_eq!(single_expression(&collect("a${x}")), None);
    assert_eq!(single_expression(&collect("plain")), None);
    assert_eq!(single_expression(&collect("${x}${y}")), None);
}

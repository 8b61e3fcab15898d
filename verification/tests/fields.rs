use iwwc::config::parser::{
    field_align_x, field_align_y, field_anchor, field_bool, field_children, field_col_align, field_color,
    field_id_ref, field_layer, field_output, field_row_align, field_string, six_wide_text, Entry, FieldRead,
    KdlScalar, Node,
};
use iwwc::config::types::{AlignX, AlignY, Anchor, ColAlign, Color, FieldValue, Layer, Output, RowAlign};
use iwwc::config::ConfigErrorKind;
use iwwc::config::document::ElementKind;
use iwwc::config::fields::{form_problems, form_values, Field, Form};

fn prop(k: &str, v: KdlScalar) -> Entry {
    Entry { name: Some(k.into()), value: v }
}

fn s(v: &str) -> KdlScalar {
    KdlScalar::String(v.into())
}

fn arg(v: &str) -> Entry {
    Entry { name: None, value: s(v) }
}

fn invalid<T>(r: &FieldRead<T>) -> (ConfigErrorKind, String, usize) {
    match r {
        FieldRead::Invalid { kind, message, at } => (*kind, message.clone(), *at),
        _ => panic!("expected an invalid field"),
    }
}

fn literal<T: Clone>(r: &FieldRead<T>) -> T {
    match r {
        FieldRead::Read(FieldValue::Literal(v)) => v.clone(),
        _ => panic!("expected a literal"),
    }
}

fn expression<T>(r: &FieldRead<T>) -> String {
    match r {
        FieldRead::Read(FieldValue::Expr(e)) => e.clone(),
        _ => panic!("expected an expression"),
    }
}

#[test]
fn bool_fields() {
    let es = vec![prop("a", KdlScalar::Bool(true)), prop("b", s("${on}")), prop("c", s("yes")), prop("d", KdlScalar::Integer(1))];
    assert!(literal(&field_bool("a", &es)));
    assert_eq!(expression(&field_bool("b", &es)), "${on}");
    assert_eq!(
        invalid(&field_bool("c", &es)),
        (ConfigErrorKind::InvalidBool, "invalid bool, expected #true or #false".to_string(), 2)
    );
    assert_eq!(invalid(&field_bool("d", &es)).2, 3);
    assert!(matches!(field_bool("e", &es), FieldRead::Absent));
}

#[test]
fn first_property_wins() {
    let es = vec![prop("a", KdlScalar::Bool(false)), prop("a", KdlScalar::Bool(true))];
    assert!(!literal(&field_bool("a", &es)));
}

#[test]
fn six_wide_numbers() {
    assert_eq!(six_wide_text(255), "000255");
    assert_eq!(six_wide_text(-42), "-00042");
    assert_eq!(six_wide_text(1234567), "1234567");
    assert_eq!(six_wide_text(0), "000000");
}

#[test]
fn color_fields() {
    let es = vec![
        prop("bg", s("#ff8000")),
        prop("fg", KdlScalar::Integer(112233)),
        prop("x", s("transparent")),
        prop("y", s("${c}")),
        prop("z", s("nope")),
        prop("w", KdlScalar::Bool(true)),
    ];
    assert_eq!(literal(&field_color("bg", &es)), Color { r: 255, g: 128, b: 0, a: 255 });
    assert_eq!(literal(&field_color("fg", &es)), Color { r: 0x11, g: 0x22, b: 0x33, a: 255 });
    assert_eq!(literal(&field_color("x", &es)), Color::transparent());
    assert_eq!(expression(&field_color("y", &es)), "${c}");
    let msg = "invalid color format, expected rrggbb, rrggbbaa, #rrggbb, #rrggbbaa, transparent, or int";
    assert_eq!(invalid(&field_color("z", &es)), (ConfigErrorKind::InvalidColor, msg.to_string(), 4));
    assert_eq!(invalid(&field_color("w", &es)), (ConfigErrorKind::InvalidColor, msg.to_string(), 5));
}

#[test]
fn text_fields() {
    let es = vec![prop("style", s("card")), prop("label", s("hi ${name}")), prop("n", KdlScalar::Integer(3))];
    assert_eq!(literal(&field_id_ref("style", &es)), "card");
    assert_eq!(expression(&field_string("label", &es)), "hi ${name}");
    assert_eq!(
        invalid(&field_id_ref("n", &es)),
        (ConfigErrorKind::InvalidFieldType, "field `n` expects an id (string)".to_string(), 2)
    );
    assert_eq!(
        invalid(&field_string("n", &es)),
        (ConfigErrorKind::InvalidFieldType, "field `n` expects a string".to_string(), 2)
    );
}

#[test]
fn layer_anchor_output_fields() {
    let es = vec![
        prop("layer", s("overlay")),
        prop("bad", s("middle")),
        prop("anchor", s("top|left")),
        prop("anchor2", s("top|up")),
        prop("output", s("last")),
        prop("output2", s("DP-1")),
        prop("n", KdlScalar::Null),
        prop("output3", s("active")),
    ];
    assert_eq!(literal(&field_layer("layer", &es)), Layer::Overlay);
    assert_eq!(
        invalid(&field_layer("bad", &es)).1,
        "invalid layer value \"middle\", expected one of: top, bottom, background, overlay"
    );
    assert_eq!(
        invalid(&field_layer("n", &es)).1,
        "invalid layer value, expected one of: top, bottom, background, overlay"
    );
    assert_eq!(
        literal(&field_anchor("anchor", &es)),
        Anchor { top: true, bottom: false, left: true, right: false }
    );
    assert_eq!(invalid(&field_anchor("anchor2", &es)).1, "invalid anchor token \"up\"");
    assert_eq!(invalid(&field_anchor("n", &es)).1, "anchor must be a string");
    assert_eq!(literal(&field_output("output", &es)), Output::Last);
    assert_eq!(literal(&field_output("output2", &es)), Output::Specific("DP-1".into()));
    assert_eq!(literal(&field_output("output3", &es)), Output::Active);
    assert_eq!(invalid(&field_output("n", &es)).1, "invalid output value, expected a string or `last`");
}

#[test]
fn alignment_fields() {
    let es = vec![prop("x", s("right")), prop("y", s("b")), prop("q", s("middle")), prop("e", s("${a}"))];
    assert_eq!(literal(&field_align_x("x", &es)), AlignX::Right);
    assert_eq!(literal(&field_align_y("y", &es)), AlignY::Bottom);
    assert_eq!(literal(&field_col_align("x", &es)), ColAlign::Right);
    assert_eq!(literal(&field_row_align("y", &es)), RowAlign::Bottom);
    assert_eq!(expression(&field_align_x("e", &es)), "${a}");
    assert_eq!(
        invalid(&field_align_x("q", &es)).1,
        "invalid align_x value, expected one of: l, c, r, left, center, right"
    );
    assert_eq!(
        invalid(&field_align_y("q", &es)).1,
        "invalid align_y value, expected one of: t, c, b, top, center, bottom"
    );
    assert_eq!(invalid(&field_col_align("q", &es)).0, ConfigErrorKind::InvalidEnumValue);
    assert_eq!(invalid(&field_row_align("q", &es)).2, 2);
}

fn node(name: &str, entries: Vec<Entry>, children: Option<Vec<Node>>) -> Node {
    Node { name: name.into(), entries, children }
}

#[test]
fn children_lists() {
    let listed = node(
        "row",
        vec![],
        Some(vec![
            node("spacing", vec![], None),
            node("children", vec![arg("a"), prop("k", s("v")), arg("b")], None),
        ]),
    );
    assert_eq!(literal(&field_children(&listed)), vec!["a".to_string(), "b".to_string()]);

    let empty = node("row", vec![], Some(vec![node("children", vec![prop("k", s("v"))], None)]));
    assert_eq!(
        invalid(&field_children(&empty)),
        (ConfigErrorKind::EmptyChildrenList, "children requires at least one id".to_string(), 0)
    );
    assert!(matches!(field_children(&node("row", vec![], None)), FieldRead::Absent));
    assert!(matches!(
        field_children(&node("row", vec![], Some(vec![node("other", vec![arg("a")], None)]))),
        FieldRead::Absent
    ));
}

#[test]
fn widget_fields_are_read_in_order() {
    let n = node(
        "widget",
        vec![
            arg("bar"),
            prop("layer", s("overlay")),
            prop("anchor", KdlScalar::Bool(true)),
            prop("exclusive", s("${excl}")),
            prop("child", s("t1")),
            prop("h", KdlScalar::Integer(30)),
        ],
        None,
    );
    let fields = form_values(Form::Element(ElementKind::Widget), &n);
    let names: Vec<&str> = fields.iter().map(|f| f.0).collect();
    assert_eq!(
        names,
        vec!["h", "w", "layer", "anchor", "exclusive", "margin", "output", "keyboard", "transparent", "child"]
    );
    assert!(matches!(fields[0].1, Field::Unread));
    assert!(matches!(&fields[2].1, Field::Layer(r) if literal(r) == Layer::Overlay));
    match &fields[3].1 {
        Field::Anchor(r) => assert_eq!(
            invalid(r),
            (ConfigErrorKind::InvalidEnumValue, "anchor must be a string".to_string(), 2)
        ),
        _ => panic!("expected the anchor"),
    }
    assert!(matches!(&fields[4].1, Field::Bool(r) if expression(r) == "${excl}"));
    assert!(matches!(&fields[6].1, Field::Output(FieldRead::Absent)));
    assert!(matches!(&fields[9].1, Field::Text(r) if literal(r) == "t1"));
    let problems = form_problems(Form::Element(ElementKind::Widget), &n);
    let found: Vec<(&str, Option<usize>)> = problems.iter().map(|p| (p.message.as_str(), p.entry)).collect();
    assert_eq!(found, vec![("anchor must be a string", Some(2))]);
}

#[test]
fn row_fields_and_problems() {
    let n = node(
        "row",
        vec![arg("r"), prop("align", s("b")), prop("spacing", s("wide"))],
        Some(vec![node("children", vec![arg("a"), arg("b")], None)]),
    );
    let fields = form_values(Form::Element(ElementKind::Row), &n);
    assert!(matches!(&fields[0].1, Field::Ids(r) if literal(r) == vec!["a".to_string(), "b".to_string()]));
    assert!(matches!(&fields[6].1, Field::RowAlign(r) if literal(r) == RowAlign::Bottom));
    let problems = form_problems(Form::Element(ElementKind::Row), &n);
    assert_eq!(problems.len(), 1);
    assert_eq!(problems[0].message, "field `spacing` expects a number");
    assert_eq!(problems[0].kind, ConfigErrorKind::InvalidLengthValue);
    let empty = node("column", vec![arg("c")], Some(vec![node("children", vec![], None)]));
    let problems = form_problems(Form::Element(ElementKind::Column), &empty);
    assert_eq!((problems[0].entry, problems[0].child), (None, Some(0)));
    assert_eq!(problems[0].message, "children requires at least one id");
    let problems = form_problems(Form::Element(ElementKind::Container), &node("container", vec![arg("c")], None));
    assert_eq!(problems.len(), 1);
    assert_eq!(problems[0].message, "child is required");
    assert_eq!(problems[0].kind, ConfigErrorKind::MissingRequiredField);
}

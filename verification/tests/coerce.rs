use iwwc::config::math::evaluator::Operand;
use iwwc::config::math::format_plain;
use iwwc::config::resolver::coerce::{
    coerce_align_x, coerce_align_y, coerce_anchor, coerce_bool, coerce_col_align, coerce_color, coerce_layer,
    coerce_output, coerce_row_align, type_err,
};
use iwwc::config::types::{AlignX, AlignY, Anchor, ColAlign, Color, Layer, Output, RowAlign, SourceText, Span};

fn span() -> Span {
    Span { source: SourceText { label: "<t>".into(), text: String::new() }, offset: 0, len: 0 }
}

#[test]
fn bool_strict() {
    assert!(coerce_bool(Operand::Bool(true), "clip", &span()).unwrap());
    let e = coerce_bool(Operand::Int(1), "clip", &span()).unwrap_err();
    assert_eq!(e.message, "cannot use this value where a boolean is expected for field \"clip\"");
}

#[test]
fn color_from_string() {
    let c = coerce_color(Operand::Str("ffffff".into()), "text", &span()).unwrap();
    assert_eq!(c, Color { r: 0xff, g: 0xff, b: 0xff, a: 0xff });
    let e = coerce_color(Operand::Str("zz".into()), "text", &span()).unwrap_err();
    assert_eq!(e.message, "cannot use this value where a color is expected for field \"text\"");
}

#[test]
fn color_rejects_number() {
    let e = coerce_color(Operand::Int(0), "text", &span()).unwrap_err();
    assert_eq!(e.message, "cannot use this value where a color string is expected for field \"text\"");
}

#[test]
fn anchor_from_string() {
    let a = coerce_anchor(Operand::Str("t | r".into()), "anchor", &span()).unwrap();
    assert_eq!(a, Anchor { top: true, bottom: false, left: false, right: true });
    assert!(coerce_anchor(Operand::Str("q".into()), "anchor", &span()).is_err());
}

#[test]
fn layer_from_string() {
    assert_eq!(coerce_layer(Operand::Str("top".into()), "layer", &span()).unwrap(), Layer::Top);
    assert!(coerce_layer(Operand::Float, "layer", &span()).is_err());
}

#[test]
fn align_and_output() {
    assert_eq!(coerce_align_x(Operand::Str("c".into()), "align_x", &span()).unwrap(), AlignX::Center);
    assert_eq!(coerce_output(Operand::Str("last".into()), "output", &span()).unwrap(), Output::Last);
    assert_eq!(coerce_output(Operand::Str("active".into()), "output", &span()).unwrap(), Output::Active);
    assert_eq!(
        coerce_output(Operand::Str("HDMI-A-1".into()), "output", &span()).unwrap(),
        Output::Specific("HDMI-A-1".into())
    );
}

#[test]
fn type_err_message() {
    let e = type_err("h", "a number", &span());
    assert_eq!(e.message, "cannot use this value where a number is expected for field \"h\"");
}

#[test]
fn string_stringifies_any() {
    use_format();
}

fn use_format() {
    assert_eq!(format_plain(&Operand::Int(42)).unwrap(), "42");
    assert_eq!(format_plain(&Operand::Bool(true)).unwrap(), "#true");
    assert_eq!(format_plain(&Operand::Str("hi".into())).unwrap(), "hi");
}

#[test]
fn vertical_and_axis_alignments() {
    use_alignments();
}

fn use_alignments() {
    assert_eq!(coerce_align_y(Operand::Str("b".into()), "align_y", &span()).unwrap(), AlignY::Bottom);
    assert_eq!(coerce_row_align(Operand::Str("top".into()), "align", &span()).unwrap(), RowAlign::Top);
    assert_eq!(coerce_col_align(Operand::Str("r".into()), "align", &span()).unwrap(), ColAlign::Right);
    let e = coerce_col_align(Operand::Bool(true), "align", &span()).unwrap_err();
    assert_eq!(e.message, "cannot use this value where a column align string is expected for field \"align\"");
    let e = coerce_row_align(Operand::Str("x".into()), "align", &span()).unwrap_err();
    assert_eq!(e.message, "cannot use this value where a valid row align is expected for field \"align\"");
}

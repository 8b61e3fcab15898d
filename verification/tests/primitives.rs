use iwwc::config::primitives::{
    parse_align_x, parse_align_y, parse_anchor, parse_col_align, parse_color, parse_interval,
    parse_interval_ms, parse_layer, parse_output, parse_row_align, AnchorError,
};
use iwwc::config::types::{AlignX, AlignY, Anchor, ColAlign, Color, Layer, Output, RowAlign};
use std::time::Duration;

#[test]
fn interval_parsing() {
    assert_eq!(parse_interval("1s"), Some(Duration::from_millis(1000)));
    assert_eq!(parse_interval("500ms"), Some(Duration::from_millis(500)));
    assert_eq!(parse_interval("2m"), Some(Duration::from_millis(120_000)));
    assert_eq!(parse_interval("1h"), Some(Duration::from_millis(3_600_000)));
    assert_eq!(parse_interval(" 250ms "), Some(Duration::from_millis(250)));
    assert_eq!(parse_interval("5"), None);
    assert_eq!(parse_interval("1x"), None);
    assert_eq!(parse_interval("ms"), None);
}

#[test]
fn interval_edge_cases() {
    assert_eq!(parse_interval_ms("+3s"), Some(3000));
    assert_eq!(parse_interval_ms(" 4 m"), Some(240_000));
    assert_eq!(parse_interval_ms("-1s"), None);
    assert_eq!(parse_interval_ms("18446744073709551615h"), Some(u64::MAX));
    assert_eq!(parse_interval_ms("18446744073709551616ms"), None);
    assert_eq!(parse_interval_ms("s"), None);
}

fn anchor(top: bool, bottom: bool, left: bool, right: bool) -> Anchor {
    Anchor { top, bottom, left, right }
}

#[test]
fn anchor_parsing() {
    assert_eq!(parse_anchor("t").unwrap(), anchor(true, false, false, false));
    assert_eq!(parse_anchor("top").unwrap(), anchor(true, false, false, false));
    assert_eq!(parse_anchor("t | l").unwrap(), anchor(true, false, true, false));
    assert_eq!(parse_anchor("b | r").unwrap(), anchor(false, true, false, true));
    assert_eq!(parse_anchor("bottom | r").unwrap(), anchor(false, true, false, true));
    assert_eq!(parse_anchor("b|r").unwrap(), anchor(false, true, false, true));
    assert_eq!(parse_anchor("l | r").unwrap(), anchor(false, false, true, true));
    assert_eq!(parse_anchor("t | b").unwrap(), anchor(true, true, false, false));
    assert_eq!(parse_anchor("t | l | r").unwrap(), anchor(true, false, true, true));
    assert_eq!(parse_anchor("t | b | l | r").unwrap(), anchor(true, true, true, true));
    assert!(matches!(parse_anchor("xyz").unwrap_err(), AnchorError::Unknown(_)));
}

#[test]
fn anchor_blank_pieces_and_first_unknown() {
    assert_eq!(parse_anchor("").unwrap(), Anchor::default());
    assert_eq!(parse_anchor(" | t || ").unwrap(), anchor(true, false, false, false));
    match parse_anchor("t | x | y").unwrap_err() {
        AnchorError::Unknown(w) => assert_eq!(w, "x"),
    }
}

#[test]
fn enum_parsers() {
    assert_eq!(parse_layer("top"), Some(Layer::Top));
    assert_eq!(parse_layer("bottom"), Some(Layer::Bottom));
    assert_eq!(parse_layer("background"), Some(Layer::Background));
    assert_eq!(parse_layer("overlay"), Some(Layer::Overlay));
    assert_eq!(parse_layer("middle"), None);

    assert_eq!(parse_align_x("l"), Some(AlignX::Left));
    assert_eq!(parse_align_x("c"), Some(AlignX::Center));
    assert_eq!(parse_align_x("r"), Some(AlignX::Right));
    assert_eq!(parse_align_x("left"), Some(AlignX::Left));
    assert_eq!(parse_align_x("center"), Some(AlignX::Center));
    assert_eq!(parse_align_x("right"), Some(AlignX::Right));
    assert_eq!(parse_align_x("middle"), None);

    assert_eq!(parse_align_y("t"), Some(AlignY::Top));
    assert_eq!(parse_align_y("c"), Some(AlignY::Center));
    assert_eq!(parse_align_y("b"), Some(AlignY::Bottom));
    assert_eq!(parse_align_y("top"), Some(AlignY::Top));
    assert_eq!(parse_align_y("center"), Some(AlignY::Center));
    assert_eq!(parse_align_y("bottom"), Some(AlignY::Bottom));
    assert_eq!(parse_align_y("mid"), None);

    assert_eq!(parse_row_align("b"), Some(RowAlign::Bottom));
    assert_eq!(parse_col_align("right"), Some(ColAlign::Right));
    assert_eq!(parse_col_align("top"), None);

    assert_eq!(parse_output("last"), Output::Last);
    assert_eq!(parse_output("active"), Output::Active);
    assert_eq!(parse_output("HDMI-A-1"), Output::Specific("HDMI-A-1".into()));
}

#[test]
fn colors() {
    assert_eq!(parse_color("transparent"), Some(Color { r: 0, g: 0, b: 0, a: 0 }));
    assert_eq!(parse_color("ffffff"), Some(Color { r: 255, g: 255, b: 255, a: 255 }));
    assert_eq!(parse_color("#102030"), Some(Color { r: 0x10, g: 0x20, b: 0x30, a: 0xff }));
    assert_eq!(parse_color("#A0b1C280"), Some(Color { r: 0xa0, g: 0xb1, b: 0xc2, a: 0x80 }));
    assert_eq!(parse_color("##102030"), None);
    assert_eq!(parse_color("12345"), None);
    assert_eq!(parse_color("12345g"), None);
    assert_eq!(parse_color("é12345"), None);
}

#[test]
fn color_hex_round_trip_and_acceptance() {
    for (r, g, b, a) in [(0u8, 0u8, 0u8, 0u8), (255, 128, 7, 200), (18, 52, 86, 120)] {
        assert_eq!(parse_color(&format!("{:02x}{:02x}{:02x}{:02x}", r, g, b, a)), Some(Color { r, g, b, a }));
        assert_eq!(parse_color(&format!("#{:02X}{:02X}{:02X}", r, g, b)), Some(Color { r, g, b, a: 255 }));
    }
    assert_eq!(parse_color("#12345"), None);
    assert_eq!(parse_color("12345g"), None);
    assert_eq!(parse_color("##123456"), None);
    assert_eq!(parse_color("transparent"), Some(Color { r: 0, g: 0, b: 0, a: 0 }));
}

#[test]
fn anchor_is_its_edge_words() {
    assert_eq!(parse_anchor(" t | | right ").unwrap(), Anchor { top: true, bottom: false, left: false, right: true });
    assert_eq!(parse_anchor("").unwrap(), Anchor::default());
    assert_eq!(parse_anchor("top|t|b").unwrap(), Anchor { top: true, bottom: true, left: false, right: false });
    match parse_anchor("t|x|y") {
        Err(AnchorError::Unknown(w)) => assert_eq!(w, "x"),
        _ => panic!("expected the first unknown word"),
    }
}

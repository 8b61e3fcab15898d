use iwwc::config::primitives::parse_anchor;
use iwwc::config::types::{Anchor, Layer};
use iwwc::daemon::window::{exclusive_zone, layer_settings_for, SurfaceRequest};

fn request(anchor: &str, w: u32, h: u32, exclusive: Option<bool>) -> SurfaceRequest {
    SurfaceRequest {
        w,
        h,
        zone_w: w as i32,
        zone_h: h as i32,
        layer: None,
        anchor: Some(parse_anchor(anchor).unwrap()),
        exclusive,
        margin: None,
        keyboard: None,
        transparent: None,
    }
}

#[test]
fn top_bar_exclusive_zone_is_height() {
    let mut r = request("t", 1920, 30, Some(true));
    r.layer = Some(Layer::Top);
    let s = layer_settings_for(&r);
    assert_eq!(s.size, (1920, 30));
    assert_eq!(s.exclusive_zone, 30);
    assert_eq!(s.layer, Layer::Top);
}

#[test]
fn corner_anchor_reserves_nothing() {
    let r = request("t | l", 200, 30, Some(true));
    assert_eq!(layer_settings_for(&r).exclusive_zone, 0);
}

#[test]
fn left_panel_exclusive_zone_is_width() {
    let r = request("l", 300, 1080, Some(true));
    assert_eq!(layer_settings_for(&r).exclusive_zone, 300);
}

#[test]
fn non_exclusive_zone_zero() {
    let r = request("t", 100, 30, Some(false));
    assert_eq!(layer_settings_for(&r).exclusive_zone, 0);
    let r = request("t", 100, 30, None);
    assert_eq!(layer_settings_for(&r).exclusive_zone, 0);
}

#[test]
fn transparent_and_keyboard() {
    let mut r = request("t", 100, 30, None);
    r.transparent = Some(true);
    r.keyboard = Some(true);
    let s = layer_settings_for(&r);
    assert!(s.events_transparent);
    assert!(s.keyboard_exclusive);
    assert_eq!(s.namespace, "iwwc");
    r.keyboard = Some(false);
    assert!(!layer_settings_for(&r).keyboard_exclusive);
}

#[test]
fn unset_sizes_stretch_the_anchor() {
    let mut r = request("t", 0, 30, None);
    let s = layer_settings_for(&r);
    assert_eq!(s.anchor, Anchor { top: true, bottom: false, left: true, right: true });
    r.anchor = None;
    r.w = 100;
    r.h = 0;
    let s = layer_settings_for(&r);
    assert_eq!(s.anchor, Anchor { top: true, bottom: true, left: true, right: false });
    assert_eq!(s.layer, Layer::Top);
}

#[test]
fn exclusive_zone_cases() {
    let a = |s: &str| Some(parse_anchor(s).unwrap());
    assert_eq!(exclusive_zone(Some(true), a("b"), 100, 40), 40);
    assert_eq!(exclusive_zone(Some(true), a("r"), 100, 40), 100);
    assert_eq!(exclusive_zone(Some(true), a("t | l | r"), 100, 40), 40);
    assert_eq!(exclusive_zone(Some(true), a("t | b"), 100, 40), 0);
    assert_eq!(exclusive_zone(Some(true), None, 100, 40), 0);
}

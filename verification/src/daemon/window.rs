//! How much of the screen edge a widget's surface reserves.

use vstd::prelude::*;
use crate::config::types::{Anchor, Layer};
use crate::text::owned;

verus! {

/// The exclusive zone of a surface: nothing unless it asks to be exclusive;
/// then its height when it is anchored to exactly one of top/bottom and not
/// to exactly one of left/right, its width in the opposite case, and
/// nothing otherwise (a corner, an edge-to-edge or an unanchored surface).
pub open spec fn spec_exclusive_zone(exclusive: Option<bool>, anchor: Option<Anchor>, w: i32, h: i32) -> i32 {
    if exclusive != Some(true) {
        0
    } else {
        match anchor {
            None => 0,
            Some(a) => {
                let vertical = a.top != a.bottom;
                let horizontal = a.left != a.right;
                if vertical && !horizontal {
                    h
                } else if horizontal && !vertical {
                    w
                } else {
                    0
                }
            },
        }
    }
}

/// The exclusive zone of a surface whose width and height, in whole
/// pixels, are `w` and `h` (0 when unset).
pub fn exclusive_zone(exclusive: Option<bool>, anchor: Option<Anchor>, w: i32, h: i32) -> (r: i32)
    ensures
        r == spec_exclusive_zone(exclusive, anchor, w, h),
{
    match exclusive {
        Some(true) => {},
        _ => return 0,
    }
    match anchor {
        Some(a) => {
            let vertical = a.top != a.bottom;
            let horizontal = a.left != a.right;
            if vertical && !horizontal {
                h
            } else if horizontal && !vertical {
                w
            } else {
                0
            }
        },
        None => 0,
    }
}


/// What a widget asks of its surface, in whole pixels: the size as the
/// surface takes it (`w`, `h`, 0 when unset), the size as the exclusive zone
/// counts it (`zone_w`, `zone_h`), and the other surface fields.
#[derive(Debug, Clone, Copy)]
pub struct SurfaceRequest {
    pub w: u32,
    pub h: u32,
    pub zone_w: i32,
    pub zone_h: i32,
    pub layer: Option<Layer>,
    pub anchor: Option<Anchor>,
    pub exclusive: Option<bool>,
    pub margin: Option<(i32, i32, i32, i32)>,
    pub keyboard: Option<bool>,
    pub transparent: Option<bool>,
}

/// The settings a layer-shell surface is created with.
#[derive(Debug, PartialEq, Eq)]
pub struct SurfaceSettings {
    pub size: (u32, u32),
    pub layer: Layer,
    pub anchor: Anchor,
    pub exclusive_zone: i32,
    pub margin: Option<(i32, i32, i32, i32)>,
    /// Whether the surface takes the keyboard exclusively.
    pub keyboard_exclusive: bool,
    pub events_transparent: bool,
    pub namespace: String,
}

/// The anchor a surface gets: the widget's (top-left when unset), stretched
/// to both sides of an axis along which it has no size.
pub open spec fn spec_surface_anchor(r: SurfaceRequest) -> Anchor {
    let a = match r.anchor {
        Some(a) => a,
        None => Anchor { top: true, bottom: false, left: true, right: false },
    };
    Anchor {
        top: a.top || r.h == 0,
        bottom: a.bottom || r.h == 0,
        left: a.left || r.w == 0,
        right: a.right || r.w == 0,
    }
}

/// The settings for a widget's surface: its size, its layer (top when
/// unset), the anchor above, its exclusive zone, its margin, exclusive
/// keyboard only when asked, pointer events passed through only when asked,
/// and the namespace `iwwc`.
pub fn layer_settings_for(r: &SurfaceRequest) -> (s: SurfaceSettings)
    ensures
        s.size == (r.w, r.h),
        s.layer == (match r.layer { Some(l) => l, None => Layer::Top }),
        s.anchor == spec_surface_anchor(*r),
        s.exclusive_zone == spec_exclusive_zone(r.exclusive, r.anchor, r.zone_w, r.zone_h),
        s.margin == r.margin,
        s.keyboard_exclusive == (r.keyboard == Some(true)),
        s.events_transparent == (r.transparent == Some(true)),
        s.namespace@ == "iwwc"@,
{
    let mut anchor = match r.anchor {
        Some(a) => a,
        None => Anchor { top: true, bottom: false, left: true, right: false },
    };
    if r.w == 0 {
        anchor.left = true;
        anchor.right = true;
    }
    if r.h == 0 {
        anchor.top = true;
        anchor.bottom = true;
    }
    SurfaceSettings {
        size: (r.w, r.h),
        layer: match r.layer {
            Some(l) => l,
            None => Layer::Top,
        },
        anchor,
        exclusive_zone: exclusive_zone(r.exclusive, r.anchor, r.zone_w, r.zone_h),
        margin: r.margin,
        keyboard_exclusive: match r.keyboard {
            Some(true) => true,
            _ => false,
        },
        events_transparent: match r.transparent {
            Some(t) => t,
            None => false,
        },
        namespace: owned("iwwc"),
    }
}


/// The margins of a notification surface pushed `step` pixels away from
/// the edge it stacks from: from the bottom when anchored to the bottom
/// and not the top, else from the top.
pub open spec fn spec_margin_offset(base: (i32, i32, i32, i32), anchor: Anchor, step: i32) -> (int, int, int, int) {
    if anchor.bottom && !anchor.top {
        (base.0 as int, base.1 as int, base.2 + step, base.3 as int)
    } else {
        (base.0 + step, base.1 as int, base.2 as int, base.3 as int)
    }
}

pub fn margin_offset(base: (i32, i32, i32, i32), anchor: Anchor, step: i32) -> (r: (i32, i32, i32, i32))
    requires
        anchor.bottom && !anchor.top ==> i32::MIN <= base.2 + step <= i32::MAX,
        !(anchor.bottom && !anchor.top) ==> i32::MIN <= base.0 + step <= i32::MAX,
    ensures
        (r.0 as int, r.1 as int, r.2 as int, r.3 as int) == spec_margin_offset(base, anchor, step),
{
    let (mut top, right, mut bottom, left) = base;
    if anchor.bottom && !anchor.top {
        bottom = bottom + step;
    } else {
        top = top + step;
    }
    (top, right, bottom, left)
}


/// The anchor with its vertical and horizontal edges swapped.
pub open spec fn transposed(a: Anchor) -> Anchor {
    Anchor { top: a.left, bottom: a.right, left: a.top, right: a.bottom }
}

/// A surface reserves space only when it asks to be exclusive: a bar on
/// the top or the bottom edge (not on just one of the sides) reserves its
/// height, a panel on the left or the right edge (not on just one of top
/// and bottom) reserves its width, and a corner reserves nothing. Turning
/// the surface a quarter (swapping the axes and the sizes) keeps its zone.
pub proof fn law_exclusive_zone(e: Option<bool>, a: Anchor, w: i32, h: i32)
    ensures
        e != Some(true) ==> spec_exclusive_zone(e, Some(a), w, h) == 0,
        spec_exclusive_zone(Some(true), None, w, h) == 0,
        (a.top && !a.bottom) && (a.left == a.right) ==> spec_exclusive_zone(Some(true), Some(a), w, h) == h,
        (a.bottom && !a.top) && (a.left == a.right) ==> spec_exclusive_zone(Some(true), Some(a), w, h) == h,
        (a.left && !a.right) && (a.top == a.bottom) ==> spec_exclusive_zone(Some(true), Some(a), w, h) == w,
        (a.right && !a.left) && (a.top == a.bottom) ==> spec_exclusive_zone(Some(true), Some(a), w, h) == w,
        (a.top != a.bottom) && (a.left != a.right) ==> spec_exclusive_zone(Some(true), Some(a), w, h) == 0,
        spec_exclusive_zone(e, Some(transposed(a)), h, w) == spec_exclusive_zone(e, Some(a), w, h),
{
}

/// A surface without a size along an axis stretches to both edges of it;
/// along an axis where it has a size it keeps the edges it asked for (top
/// and left when it asked for none).
pub proof fn law_surface_anchor(r: SurfaceRequest)
    ensures
        r.w == 0 ==> spec_surface_anchor(r).left && spec_surface_anchor(r).right,
        r.h == 0 ==> spec_surface_anchor(r).top && spec_surface_anchor(r).bottom,
        r.anchor matches Some(a) ==> (r.w > 0 ==> spec_surface_anchor(r).left == a.left && spec_surface_anchor(r).right == a.right),
        r.anchor matches Some(a) ==> (r.h > 0 ==> spec_surface_anchor(r).top == a.top && spec_surface_anchor(r).bottom == a.bottom),
        r.w > 0 && r.h > 0 && r.anchor is None ==> spec_surface_anchor(r)
            == (Anchor { top: true, bottom: false, left: true, right: false }),
{
}

/// Stacking moves a surface away from the edge it stacks from by `step`:
/// only the bottom margin changes for one anchored to the bottom (and not
/// the top), only the top margin otherwise.
pub proof fn law_margin_offset(base: (i32, i32, i32, i32), a: Anchor, step: i32)
    ensures
        a.bottom && !a.top ==> spec_margin_offset(base, a, step) == (base.0 as int, base.1 as int, base.2 + step, base.3 as int),
        !(a.bottom && !a.top) ==> spec_margin_offset(base, a, step) == (base.0 + step, base.1 as int, base.2 as int, base.3 as int),
        spec_margin_offset(base, a, 0) == (base.0 as int, base.1 as int, base.2 as int, base.3 as int),
{
}

} // verus!

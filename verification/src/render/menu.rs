//! The text a tray-menu row shows.

use vstd::prelude::*;
use crate::text::push_str;
use crate::tray::menu_types::{MenuItem, Toggle};

verus! {

/// The glyph in front of a label: a check mark or a dot for a set check or
/// radio item, two spaces for an unset one, nothing for a plain item.
pub open spec fn toggle_glyph(t: Toggle) -> Seq<char> {
    match t {
        Toggle::Check(true) => "\u{2713} "@,
        Toggle::Radio(true) => "\u{25cf} "@,
        Toggle::Check(false) | Toggle::Radio(false) => "  "@,
        Toggle::NoToggle => ""@,
    }
}

/// The exact text content a row renders: the toggle glyph prefix plus the label.
pub fn row_text(item: &MenuItem) -> (r: String)
    ensures
        r@ == toggle_glyph(item.toggle) + item.label@,
{
    let glyph = match item.toggle {
        Toggle::Check(true) => "\u{2713} ",
        Toggle::Radio(true) => "\u{25cf} ",
        Toggle::Check(false) | Toggle::Radio(false) => "  ",
        Toggle::NoToggle => "",
    };
    let mut out = String::new();
    push_str(&mut out, glyph);
    push_str(&mut out, item.label.as_str());
    out
}

} // verus!

//! The icon theme icons are looked up in.

use vstd::prelude::*;
use crate::text::owned;

verus! {

/// The theme the configuration names, unless empty; else the desktop's
/// default theme when there is one; else `hicolor`.
pub open spec fn spec_effective_theme(configured: Option<Seq<char>>, desktop_default: Option<Seq<char>>) -> Seq<char> {
    match configured {
        Some(t) => if t.len() > 0 {
            t
        } else {
            match desktop_default { Some(g) => g, None => "hicolor"@ }
        },
        None => match desktop_default { Some(g) => g, None => "hicolor"@ },
    }
}

/// The theme to look icons up in; `desktop_default` is the theme the
/// desktop settings name, if any.
pub fn effective_theme(icon_theme: Option<&str>, desktop_default: Option<String>) -> (r: String)
    ensures
        r@ == spec_effective_theme(
            match icon_theme { Some(t) => Some(t@), None => None },
            match desktop_default { Some(g) => Some(g@), None => None },
        ),
{
    match icon_theme {
        Some(t) => if !t.is_empty() {
            return owned(t);
        },
        None => {},
    }
    match desktop_default {
        Some(g) => g,
        None => owned("hicolor"),
    }
}

} // verus!

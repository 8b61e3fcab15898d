//! Which icon file a notification shows.

use vstd::prelude::*;
use crate::text::{chars_of, is_prefix, join_path, joined, owned, strip_prefix};

verus! {

/// The fallback icon, `default.svg` in the configuration directory.
pub open spec fn spec_default_icon(config_dir: Seq<char>) -> Seq<char> {
    joined(config_dir, "default.svg"@)
}

pub fn default_icon_path(config_dir: &str) -> (r: String)
    ensures
        r@ == spec_default_icon(config_dir@),
{
    proof {
        reveal_strlit("default.svg");
    }
    join_path(config_dir, "default.svg")
}

/// `s` without a leading `file://`.
pub open spec fn without_file_uri(s: Seq<char>) -> Seq<char> {
    if is_prefix("file://"@, s) { s.skip(7) } else { s }
}

/// Removes a leading `file://`.
pub fn strip_file_uri(s: &str) -> (r: &str)
    ensures
        r@ == without_file_uri(s@),
{
    proof {
        reveal_strlit("file://");
    }
    match strip_prefix(s, "file://") {
        Some(t) => t,
        None => s,
    }
}

/// What the file system and the icon theme say about the candidates of a
/// notification's icon.
pub struct IconProbes {
    /// The image-path hint, without `file://`, is a file.
    pub hint_is_file: bool,
    /// The icon the theme has under the name of the hint.
    pub hint_lookup: Option<String>,
    /// The app icon, without `file://`, is a file.
    pub icon_is_file: bool,
    /// The icon the theme has under the app icon's name.
    pub icon_lookup: Option<String>,
    /// The icon the theme has under the lowercased application name.
    pub name_lookup: Option<String>,
}

pub open spec fn lookup_view(o: Option<String>) -> Option<Seq<char>> {
    match o {
        Some(s) => Some(s@),
        None => None,
    }
}

/// The icon of a notification: the default when icons are not respected;
/// else the image-path hint when it is a file, or the theme's icon of that
/// name; else the app icon when it is an absolute path to a file, or the
/// theme's icon of that name; else the theme's icon for the application
/// name; else the default.
pub open spec fn spec_resolve_icon(
    app_icon: Seq<char>,
    app_name: Seq<char>,
    hint: Option<Seq<char>>,
    respect_icon: bool,
    config_dir: Seq<char>,
    p: IconProbes,
) -> Seq<char> {
    let default = spec_default_icon(config_dir);
    if !respect_icon {
        default
    } else if hint is Some && p.hint_is_file {
        without_file_uri(hint->0)
    } else if hint is Some && p.hint_lookup is Some {
        lookup_view(p.hint_lookup)->0
    } else if app_icon.len() > 0 && without_file_uri(app_icon).len() > 0
        && without_file_uri(app_icon)[0] == '/' && p.icon_is_file {
        without_file_uri(app_icon)
    } else if app_icon.len() > 0 && p.icon_lookup is Some {
        lookup_view(p.icon_lookup)->0
    } else if app_name.len() > 0 && p.name_lookup is Some {
        lookup_view(p.name_lookup)->0
    } else {
        default
    }
}

/// Picks the icon file of a notification from what the probes found.
pub fn resolve_icon(
    app_icon: &str,
    app_name: &str,
    image_path_hint: Option<&str>,
    respect_icon: bool,
    config_dir: &str,
    probes: &IconProbes,
) -> (r: String)
    ensures
        r@ == spec_resolve_icon(
            app_icon@,
            app_name@,
            match image_path_hint { Some(h) => Some(h@), None => None },
            respect_icon,
            config_dir@,
            *probes,
        ),
{
    let default = default_icon_path(config_dir);
    if !respect_icon {
        return default;
    }
    match image_path_hint {
        Some(hint) => {
            let raw = strip_file_uri(hint);
            if probes.hint_is_file {
                return owned(raw);
            }
            match &probes.hint_lookup {
                Some(found) => return found.clone(),
                None => {},
            }
        },
        None => {},
    }
    if !app_icon.is_empty() {
        let raw = strip_file_uri(app_icon);
        let cs = chars_of(raw);
        if cs.len() > 0 && cs[0] == '/' && probes.icon_is_file {
            return owned(raw);
        }
        match &probes.icon_lookup {
            Some(found) => return found.clone(),
            None => {},
        }
    }
    if !app_name.is_empty() {
        match &probes.name_lookup {
            Some(found) => return found.clone(),
            None => {},
        }
    }
    default
}


/// A `file://` address names the path after it; any other text is a path
/// already.
pub proof fn law_file_uri(x: Seq<char>)
    ensures
        without_file_uri("file://"@ + x) == x,
        x.len() > 0 && x[0] == '/' ==> without_file_uri(x) == x,
{
    reveal_strlit("file://");
    let u = "file://"@ + x;
    assert(u.take(7) =~= "file://"@);
    assert(u.skip(7) =~= x);
    if x.len() > 0 && x[0] == '/' {
        assert(x[0] != "file://"@[0]);
    }
}

/// The order in which a notification's icon is chosen: nothing but the
/// default when icons are not respected; an image-path hint that is a file
/// before anything else; an app icon that is an absolute path to a file
/// before the theme's icons of the app icon and of the application name;
/// and the default when nothing is found.
pub proof fn law_icon_priority(app_icon: Seq<char>, app_name: Seq<char>, hint: Option<Seq<char>>, config_dir: Seq<char>,
    p: IconProbes)
    ensures
        spec_resolve_icon(app_icon, app_name, hint, false, config_dir, p) == spec_default_icon(config_dir),
        hint matches Some(h) ==> (p.hint_is_file ==> spec_resolve_icon(app_icon, app_name, hint, true, config_dir, p)
            == without_file_uri(h)),
        hint is None && app_icon.len() > 0 && app_icon[0] == '/' && p.icon_is_file
            ==> spec_resolve_icon(app_icon, app_name, hint, true, config_dir, p) == app_icon,
        p.name_lookup matches Some(n) ==> (hint is None && app_icon.len() == 0 && app_name.len() > 0
            ==> spec_resolve_icon(app_icon, app_name, hint, true, config_dir, p) == n@),
        hint is None && app_icon.len() == 0 && app_name.len() == 0
            ==> spec_resolve_icon(app_icon, app_name, hint, true, config_dir, p) == spec_default_icon(config_dir),
        hint is None && p.icon_lookup is None && p.name_lookup is None && !p.icon_is_file
            ==> spec_resolve_icon(app_icon, app_name, hint, true, config_dir, p) == spec_default_icon(config_dir),
{
    law_file_uri(app_icon);
}

} // verus!

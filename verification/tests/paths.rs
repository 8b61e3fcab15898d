use iwwc::config::{config_candidates, discover_path};
use iwwc::ipc::socket_path;
use iwwc::notification::icons::{default_icon_path, resolve_icon, strip_file_uri, IconProbes};
use iwwc::text::{join_path, strip_prefix};

fn nothing_found() -> IconProbes {
    IconProbes {
        hint_is_file: false,
        hint_lookup: None,
        icon_is_file: false,
        icon_lookup: None,
        name_lookup: None,
    }
}

#[test]
fn respect_false_returns_default() {
    let mut p = nothing_found();
    p.icon_lookup = Some("/usr/share/icons/firefox.png".into());
    let got = resolve_icon("firefox", "Firefox", None, false, "/cfg", &p);
    assert_eq!(got, "/cfg/default.svg");
}

#[test]
fn image_path_hint_passthrough_when_exists() {
    let mut p = nothing_found();
    p.hint_is_file = true;
    let got = resolve_icon("firefox", "Firefox", Some("/cfg/icon.png"), true, "/cfg", &p);
    assert_eq!(got, "/cfg/icon.png");
}

#[test]
fn absolute_app_icon_path_passthrough() {
    let mut p = nothing_found();
    p.icon_is_file = true;
    let got = resolve_icon("/cfg/a.svg", "", None, true, "/cfg", &p);
    assert_eq!(got, "/cfg/a.svg");
    let got = resolve_icon("a.svg", "", None, true, "/cfg", &p);
    assert_eq!(got, "/cfg/default.svg");
}

#[test]
fn file_uri_hint_is_stripped() {
    let mut p = nothing_found();
    p.hint_is_file = true;
    let got = resolve_icon("x", "", Some("file:///cfg/b.png"), true, "/cfg", &p);
    assert_eq!(got, "/cfg/b.png");
}

#[test]
fn unknown_name_returns_default() {
    let got = resolve_icon(
        "definitely-not-an-icon-zzz-12345",
        "also-not-real-app-zzz",
        None,
        true,
        "/cfg",
        &nothing_found(),
    );
    assert_eq!(got, "/cfg/default.svg");
}

#[test]
fn lookups_in_order() {
    let p = IconProbes {
        hint_is_file: false,
        hint_lookup: Some("/h.png".into()),
        icon_is_file: false,
        icon_lookup: Some("/i.png".into()),
        name_lookup: Some("/n.png".into()),
    };
    assert_eq!(resolve_icon("firefox", "Firefox", Some("hint"), true, "/cfg", &p), "/h.png");
    assert_eq!(resolve_icon("firefox", "Firefox", None, true, "/cfg", &p), "/i.png");
    assert_eq!(resolve_icon("", "Firefox", None, true, "/cfg", &p), "/n.png");
    assert_eq!(resolve_icon("", "", None, true, "/cfg", &p), "/cfg/default.svg");
}

#[test]
fn default_icon_path_joins_config_dir() {
    assert_eq!(default_icon_path("/home/u/.config/iwwc"), "/home/u/.config/iwwc/default.svg");
    assert_eq!(default_icon_path("/home/u/.config/iwwc/"), "/home/u/.config/iwwc/default.svg");
    assert_eq!(default_icon_path(""), "default.svg");
}

#[test]
fn socket_path_uses_xdg_runtime_dir() {
    let p = socket_path(Some("/run/user/1000"));
    assert!(p.ends_with("iwwc.sock"));
    assert_eq!(p, "/run/user/1000/iwwc.sock");
    assert_eq!(socket_path(None), "/tmp/iwwc.sock");
}

#[test]
fn candidates_from_environment() {
    assert_eq!(
        config_candidates(Some("/x"), Some("/home/u"), Some("u")),
        vec![
            "/x/iwwc/config.kdl".to_string(),
            "/home/u/.config/iwwc/config.kdl".to_string(),
            "/home/u/.config/iwwc/config.kdl".to_string(),
        ]
    );
    assert_eq!(config_candidates(Some(""), None, Some("bob")), vec!["/home/bob/.config/iwwc/config.kdl".to_string()]);
    assert!(config_candidates(None, Some(""), None).is_empty());
}

#[test]
fn discover_picks_first_existing() {
    let c = vec!["/a".to_string(), "/b".to_string(), "/c".to_string()];
    assert_eq!(discover_path(&c, &[false, true, true]), Ok("/b".to_string()));
    assert_eq!(
        discover_path(&c, &[false, false, false]),
        Err("no config.kdl found, tried: /a, /b, /c".to_string())
    );
    assert_eq!(
        discover_path(&[], &[]),
        Err("no candidate config paths available, create proper config file in default location or pass it to -c flag".to_string())
    );
}

#[test]
fn text_helpers() {
    assert_eq!(strip_prefix("file:///x", "file://"), Some("/x"));
    assert_eq!(strip_prefix("fil", "file://"), None);
    assert_eq!(strip_file_uri("héllo"), "héllo");
    assert_eq!(join_path("a/", "b"), "a/b");
    assert_eq!(join_path("a", "b"), "a/b");
}

#[test]
fn first_existing_candidate_in_environment_order() {
    let c = config_candidates(Some("/x"), Some("/h"), Some("u"));
    assert_eq!(c, vec!["/x/iwwc/config.kdl", "/h/.config/iwwc/config.kdl", "/home/u/.config/iwwc/config.kdl"]);
    assert_eq!(discover_path(&c, &[false, true, true]), Ok("/h/.config/iwwc/config.kdl".to_string()));
    let c2 = config_candidates(Some(""), None, Some("u"));
    assert_eq!(c2, vec!["/home/u/.config/iwwc/config.kdl"]);
    assert_eq!(
        discover_path(&c2, &[false]),
        Err("no config.kdl found, tried: /home/u/.config/iwwc/config.kdl".to_string())
    );
}

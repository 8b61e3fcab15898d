use iwwc::config::types::Anchor;
use iwwc::daemon::pull::pull_output;
use iwwc::daemon::window::margin_offset;
use iwwc::iconlookup::effective_theme;
use iwwc::notification::types::NotificationIds;

#[test]
fn echo_returns_trimmed_stdout() {
    assert_eq!(pull_output(true, "hi\n", "d".into()), "hi");
    assert_eq!(pull_output(true, "  a b \t", "d".into()), "a b");
}

#[test]
fn failure_returns_default() {
    assert_eq!(pull_output(false, "partial", "d".into()), "d");
}

#[test]
fn theme_choice() {
    assert_eq!(effective_theme(Some("Papirus"), Some("Adwaita".into())), "Papirus");
    assert_eq!(effective_theme(Some(""), Some("Adwaita".into())), "Adwaita");
    assert_eq!(effective_theme(None, None), "hicolor");
}

#[test]
fn notification_ids() {
    let mut ids = NotificationIds::new();
    assert_eq!(ids.assign(0), 1);
    assert_eq!(ids.assign(0), 2);
    assert_eq!(ids.assign(1), 1);
    assert_eq!(ids.assign(0), 3);
}

#[test]
fn margins_stack_from_the_anchored_edge() {
    let top_right = Anchor { top: true, bottom: false, left: false, right: true };
    let bottom_right = Anchor { top: false, bottom: true, left: false, right: true };
    assert_eq!(margin_offset((10, 10, 10, 10), top_right, 90), (100, 10, 10, 10));
    assert_eq!(margin_offset((10, 10, 10, 10), bottom_right, 90), (10, 10, 100, 10));
}

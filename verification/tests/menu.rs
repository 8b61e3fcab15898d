use iwwc::daemon::menu::{submenu_items, visible_items, MenuLevel, MenuStack, MenuStep};
use iwwc::render::menu::row_text;
use iwwc::tray::menu_types::{MenuIcon, MenuItem, Toggle};

fn make_item(id: i32, label: &str, separator: bool, has_submenu: bool) -> MenuItem {
    MenuItem {
        id,
        label: label.to_string(),
        enabled: true,
        visible: true,
        separator,
        toggle: Toggle::NoToggle,
        icon: MenuIcon::NoIcon,
        has_submenu,
        children: vec![],
    }
}

fn ids(items: &[MenuItem]) -> Vec<i32> {
    items.iter().map(|i| i.id).collect()
}

#[test]
fn visible_items_drops_hidden_children() {
    let mut hidden = make_item(2, "Hidden", false, false);
    hidden.visible = false;
    let mut root = make_item(0, "", false, true);
    root.children = vec![make_item(1, "Open", false, false), hidden, make_item(3, "Quit", false, false)];
    let v = visible_items(&root);
    assert_eq!(ids(&v), vec![1, 3]);
    assert_eq!(v[0], make_item(1, "Open", false, false));
}

#[test]
fn submenu_of_enabled_item_with_visible_children() {
    let mut sub = make_item(3, "Submenu", false, true);
    let mut hidden = make_item(31, "h", false, false);
    hidden.visible = false;
    sub.children = vec![make_item(30, "a", false, false), hidden, make_item(32, "b", false, false)];
    let items = vec![make_item(1, "Open", false, false), sub];
    assert_eq!(ids(&submenu_items(&items, 3).unwrap()), vec![30, 32]);
}

#[test]
fn submenu_refused_cases() {
    let mut disabled = make_item(4, "Disabled", false, true);
    disabled.enabled = false;
    disabled.children = vec![make_item(40, "x", false, false)];
    let plain = make_item(5, "Plain", false, false);
    let mut empty = make_item(6, "Empty", false, true);
    let mut hidden = make_item(60, "h", false, false);
    hidden.visible = false;
    empty.children = vec![hidden];
    let items = vec![disabled, plain, empty];
    assert!(submenu_items(&items, 4).is_none());
    assert!(submenu_items(&items, 5).is_none());
    assert!(submenu_items(&items, 6).is_none());
    assert!(submenu_items(&items, 99).is_none());
}

#[test]
fn submenu_uses_first_item_with_the_id() {
    let mut first = make_item(7, "first", false, true);
    first.children = vec![make_item(70, "a", false, false)];
    let mut second = make_item(7, "second", false, true);
    second.children = vec![make_item(71, "b", false, false)];
    let items = vec![first, second];
    assert_eq!(ids(&submenu_items(&items, 7).unwrap()), vec![70]);
}

#[test]
fn row_text_prefixes_toggle_glyph() {
    let mut item = make_item(1, "Wifi", false, false);
    assert_eq!(row_text(&item), "Wifi");
    item.toggle = Toggle::Check(true);
    assert_eq!(row_text(&item), "\u{2713} Wifi");
    item.toggle = Toggle::Radio(true);
    assert_eq!(row_text(&item), "\u{25cf} Wifi");
    item.toggle = Toggle::Check(false);
    assert_eq!(row_text(&item), "  Wifi");
    item.toggle = Toggle::Radio(false);
    assert_eq!(row_text(&item), "  Wifi");
}

#[test]
fn duplicate_is_deep() {
    let mut root = make_item(0, "root", false, true);
    let mut child = make_item(1, "child", false, true);
    child.icon = MenuIcon::Png(vec![1, 2, 3]);
    child.children = vec![make_item(2, "grandchild", false, false)];
    root.children = vec![child];
    assert_eq!(root.duplicate(), root);
}

fn level(window: u64, items: Vec<MenuItem>) -> MenuLevel {
    MenuLevel {
        window,
        bus_name: ":1.5".into(),
        menu_path: "/Menu".into(),
        items,
        width: 0,
        height: 0,
        active_child: None,
    }
}

fn stack_windows(s: &MenuStack) -> Vec<u64> {
    s.levels.iter().map(|l| l.window).collect()
}

#[test]
fn menu_stack_root_and_close() {
    let mut s = MenuStack::new();
    assert!(s.open_root_menu(100, level(1, vec![])).is_empty());
    assert_eq!(s.overlay, Some(100));
    assert!(s.owns_window(100) && s.owns_window(1) && !s.owns_window(2));
    s.push_level(level(2, vec![]));
    s.push_level(level(3, vec![]));
    assert_eq!(s.close_from(1), vec![2, 3]);
    assert_eq!(stack_windows(&s), vec![1]);
    assert!(s.close_from(5).is_empty());
    assert_eq!(s.open_root_menu(200, level(4, vec![])), vec![1, 100]);
    assert_eq!(s.close_menus(), vec![4, 200]);
    assert!(s.levels.is_empty() && s.overlay.is_none());
}

#[test]
fn menu_hover_opens_and_closes() {
    let mut sub = make_item(3, "Submenu", false, true);
    sub.children = vec![make_item(30, "a", false, false)];
    let mut hidden = make_item(2, "Hidden", false, false);
    hidden.visible = false;
    let items = vec![make_item(1, "Open", false, false), hidden, sub];
    let mut s = MenuStack::new();
    s.open_root_menu(100, level(1, items));
    s.push_level(level(2, vec![]));
    match s.menu_hover(0, 3) {
        MenuStep::OpenSubmenu { removed, item_index, children } => {
            assert_eq!(removed, vec![2]);
            assert_eq!(item_index, 1);
            assert_eq!(ids(&children), vec![30]);
        }
        _ => panic!("expected a submenu"),
    }
    assert_eq!(stack_windows(&s), vec![1]);
    s.push_level(level(2, vec![]));
    match s.menu_hover(0, 1) {
        MenuStep::Closed { removed } => assert_eq!(removed, vec![2]),
        _ => panic!("expected the submenu to close"),
    }
    assert_eq!(stack_windows(&s), vec![1]);
    assert!(matches!(s.menu_hover(4, 1), MenuStep::Closed { ref removed } if removed.is_empty()));
}

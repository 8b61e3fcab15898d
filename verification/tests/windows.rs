use iwwc::daemon::windows::{OpenWindows, WindowAction};
use iwwc::ipc::Response;

#[test]
fn open_unknown_widget_is_refused() {
    let mut w = OpenWindows::new();
    let (resp, act) = w.open("bar", false, 1);
    assert_eq!(resp, Response::Error("no such widget \"bar\"".into()));
    assert_eq!(act, WindowAction::NoAction);
    assert_eq!(w.len(), 0);
}

#[test]
fn open_then_close_restores() {
    let mut w = OpenWindows::new();
    assert_eq!(w.open("bar", true, 7), (Response::Okay, WindowAction::Open(7, "bar".into())));
    assert!(w.is_open("bar"));
    assert_eq!(w.name_of(7), Some("bar".to_string()));
    assert_eq!(w.open("bar", true, 8), (Response::Okay, WindowAction::NoAction));
    assert_eq!(w.len(), 1);
    assert_eq!(w.close("bar"), (Response::Okay, WindowAction::Remove(7)));
    assert!(!w.is_open("bar"));
    assert_eq!(w.len(), 0);
    assert_eq!(
        w.close("bar"),
        (Response::Error("window \"bar\" is not open".into()), WindowAction::NoAction)
    );
}

#[test]
fn toggle_opens_and_closes() {
    let mut w = OpenWindows::new();
    assert_eq!(w.toggle("side", true, 3), (Response::Okay, WindowAction::Open(3, "side".into())));
    assert_eq!(w.toggle("side", true, 4), (Response::Okay, WindowAction::Remove(3)));
    assert_eq!(w.len(), 0);
    assert_eq!(
        w.toggle("nope", false, 5),
        (Response::Error("no such widget \"nope\"".into()), WindowAction::NoAction)
    );
}

#[test]
fn forget_and_take_all() {
    let mut w = OpenWindows::new();
    w.open("a", true, 1);
    w.open("b", true, 2);
    w.open("c", true, 3);
    w.forget(2);
    assert_eq!(w.name_of(2), None);
    w.forget(42);
    assert_eq!(w.len(), 2);
    let all = w.take_all();
    assert_eq!(all, vec![(1, "a".to_string()), (3, "c".to_string())]);
    assert_eq!(w.len(), 0);
    w.record(9, "a".into());
    assert!(w.is_open("a"));
}

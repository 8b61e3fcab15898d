use iwwc::daemon::notifications::{NotifQueue, NotifyOutcome};

#[test]
fn notifications_open_until_max_then_wait() {
    let mut q: NotifQueue<&str> = NotifQueue::new();
    assert_eq!(q.notify(1, "a", 2, 100), NotifyOutcome::Opened(100));
    assert_eq!(q.notify(2, "b", 2, 101), NotifyOutcome::Opened(101));
    assert_eq!(q.notify(3, "c", 2, 102), NotifyOutcome::Queued);
    assert_eq!(q.shown_count(), 2);
    assert_eq!(q.len(), 3);
    assert_eq!(q.stack(), vec![101, 100]);
}

#[test]
fn replacing_keeps_the_window() {
    let mut q: NotifQueue<&str> = NotifQueue::new();
    q.notify(1, "a", 2, 100);
    assert_eq!(q.notify(1, "a2", 2, 101), NotifyOutcome::Updated);
    assert_eq!(q.payload_of(1), Some(&"a2"));
    assert_eq!(q.owner_of(100), Some(1));
    assert_eq!(q.owner_of(101), None);
}

#[test]
fn closing_promotes_the_oldest_waiting() {
    let mut q: NotifQueue<u8> = NotifQueue::new();
    q.notify(1, 0, 1, 100);
    q.notify(2, 0, 1, 101);
    q.notify(3, 0, 1, 102);
    assert_eq!(q.close(1, 1, 103), Some((Some(100), Some((2, 103)))));
    assert_eq!(q.owner_of(103), Some(2));
    assert_eq!(q.close(3, 1, 104), Some((None, None)));
    assert_eq!(q.close(9, 1, 105), None);
    assert_eq!(q.stack(), vec![103]);
}

#[test]
fn promote_needs_room() {
    let mut q: NotifQueue<u8> = NotifQueue::new();
    q.notify(1, 0, 0, 100);
    assert_eq!(q.shown_count(), 0);
    assert_eq!(q.promote(0, 101), None);
    assert_eq!(q.promote(1, 101), Some((1, 101)));
    assert_eq!(q.promote(5, 102), None);
}

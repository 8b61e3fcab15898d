use iwwc::notification::types::{action_pairs, default_action_key, hint_urgency, HintNumber, Notification};

#[test]
fn action_pairs_splits_flat_list() {
    let a: Vec<String> = vec![
        "default".into(),
        "Open".into(),
        "reply".into(),
        "Reply".into(),
    ];
    assert_eq!(
        action_pairs(&a),
        vec![
            ("default".to_string(), "Open".to_string()),
            ("reply".to_string(), "Reply".to_string()),
        ]
    );
}

#[test]
fn action_pairs_ignores_trailing_unpaired() {
    let a: Vec<String> = vec!["a".into(), "A".into(), "dangling".into()];
    assert_eq!(action_pairs(&a), vec![("a".to_string(), "A".to_string())]);
}

#[test]
fn default_action_detected() {
    let a: Vec<String> = vec!["default".into(), "Open".into(), "x".into(), "X".into()];
    assert_eq!(default_action_key(&a), Some("default".to_string()));
    let b: Vec<String> = vec!["x".into(), "X".into()];
    assert_eq!(default_action_key(&b), None);
}

#[test]
fn default_action_only_counts_ids() {
    let a: Vec<String> = vec!["x".into(), "default".into()];
    assert_eq!(default_action_key(&a), None);
    let b: Vec<String> = vec!["x".into(), "X".into(), "default".into()];
    assert_eq!(default_action_key(&b), None);
    let c: Vec<String> = vec!["x".into(), "X".into(), "default".into(), "Go".into()];
    assert_eq!(default_action_key(&c), Some("default".to_string()));
}

#[test]
fn empty_action_list() {
    let a: Vec<String> = vec![];
    assert!(action_pairs(&a).is_empty());
    assert_eq!(default_action_key(&a), None);
}

#[test]
fn notification_actions_pair_up() {
    let n = Notification {
        app_name: "app".into(),
        app_icon: String::new(),
        replaces_id: 0,
        summary: "s".into(),
        body: "b".into(),
        actions: vec!["default".into(), "Open".into()],
        expire_timeout: -1,
        notification_id: 7,
        desktop_entry: String::new(),
        image_path: None,
    };
    assert_eq!(action_pairs(&n.actions).len(), 1);
    assert_eq!(default_action_key(&n.actions).as_deref(), Some("default"));
}

#[test]
fn urgency_hints() {
    assert_eq!(hint_urgency(None), 1);
    assert_eq!(hint_urgency(Some(HintNumber::U8(0))), 0);
    assert_eq!(hint_urgency(Some(HintNumber::U32(2))), 2);
    assert_eq!(hint_urgency(Some(HintNumber::I32(-5))), 0);
    assert_eq!(hint_urgency(Some(HintNumber::I64(9))), 2);
    assert_eq!(hint_urgency(Some(HintNumber::U64(u64::MAX))), 0);
    assert_eq!(hint_urgency(Some(HintNumber::U64(7))), 2);
    assert_eq!(hint_urgency(Some(HintNumber::Other)), 1);
}

use iwwc::config::math::evaluator::Operand;
use iwwc::config::smart::{children, is_unset, smart_polls};
use iwwc::config::smart::{namespace_of, parse_kb, poll_interval, read_meminfo, read_meminfo_checked, set_activesong};
use std::time::Duration;

#[test]
fn meminfo_parsed_to_bytes() {
    let sample = "MemTotal:       8000 kB\nMemFree: 1000 kB\nMemAvailable:   2000 kB\n";
    assert_eq!(read_meminfo(sample), Some((8000 * 1024, 6000 * 1024)));
}

#[test]
fn meminfo_missing_fields_none() {
    assert_eq!(read_meminfo("MemFree: 1000 kB\n"), None);
}

#[test]
fn namespace_and_interval() {
    assert_eq!(namespace_of("iwwc.ram.used"), Some("iwwc.ram"));
    assert_eq!(namespace_of("iwwc.ram"), None);
    assert_eq!(namespace_of("x"), None);
    assert_eq!(poll_interval("iwwc.ram"), Some(Duration::from_secs(1)));
    assert_eq!(poll_interval("iwwc.disk"), None);
    assert_eq!(namespace_of("iwwc.activesong"), Some("iwwc.activesong"));
    assert_eq!(poll_interval("iwwc.activesong"), None);
}

#[test]
fn meminfo_edge_cases() {
    // CRLF line endings, no final newline, later lines replace earlier ones.
    let t = "MemTotal: 10 kB\r\nMemAvailable: 4 kB\r\nMemTotal: 12 kB";
    assert_eq!(read_meminfo(t), Some((12 * 1024, 8 * 1024)));
    // available above total clamps used at zero
    assert_eq!(read_meminfo("MemTotal: 1\nMemAvailable: 5\n"), Some((1024, 0)));
    // an unreadable later value clears the field
    assert_eq!(read_meminfo("MemTotal: 1\nMemAvailable: 5\nMemTotal: x\n"), None);
    assert_eq!(read_meminfo(""), None);
}

#[test]
fn kb_values() {
    assert_eq!(parse_kb("   8000 kB"), Some(8000));
    assert_eq!(parse_kb("-3"), Some(-3));
    assert_eq!(parse_kb("+7\u{a0}kB"), Some(7));
    assert_eq!(parse_kb("   "), None);
    assert_eq!(parse_kb("12x kB"), None);
}

#[test]
fn cpu_namespace() {
    assert_eq!(namespace_of("iwwc.cpu.0.usage"), Some("iwwc.cpu"));
    assert_eq!(namespace_of("iwwc.cpux"), None);
    assert_eq!(poll_interval("iwwc.cpu"), Some(Duration::from_millis(1000)));
}

#[test]
fn active_song_changes() {
    let mut cur = None;
    assert!(set_activesong(&mut cur, Some("a".to_string())));
    assert!(!set_activesong(&mut cur, Some("a".to_string())));
    assert_eq!(cur, Some("a".to_string()));
    assert!(set_activesong(&mut cur, None));
    assert_eq!(cur, None);
    assert!(!set_activesong(&mut cur, None));
}

#[test]
fn children_lists_each_segment_once() {
    let keys: Vec<String> = vec![
        "iwwc.cpu.0.usage".into(),
        "iwwc.cpu.0.frequency".into(),
        "iwwc.cpu.1.usage".into(),
        "iwwc.cpu.avg.usage".into(),
        "iwwc.ram.total".into(),
        "iwwc.cpux".into(),
    ];
    assert_eq!(children(&keys, "iwwc.cpu"), vec!["0", "1", "avg"]);
    assert_eq!(children(&keys, "iwwc"), vec!["cpu", "ram", "cpux"]);
    assert!(children(&keys, "nope").is_empty());
}

#[test]
fn activesong_unset_only_when_empty() {
    assert!(is_unset("iwwc.activesong", &Operand::Str(String::new())));
    assert!(!is_unset("iwwc.activesong", &Operand::Str("x".into())));
    assert!(!is_unset("iwwc.other", &Operand::Str(String::new())));
    assert!(!is_unset("iwwc.activesong", &Operand::Int(0)));
}

#[test]
fn smart_polls_each_namespace_once() {
    let keys: Vec<String> = ["iwwc.ram.used", "x", "iwwc.cpu.0.usage", "iwwc.ram.total", "iwwc.activesong"]
        .iter()
        .map(|s| s.to_string())
        .collect();
    let polls = smart_polls(&keys);
    assert_eq!(
        polls,
        vec![
            ("iwwc.ram".to_string(), Some(Duration::from_millis(1000))),
            ("iwwc.cpu".to_string(), Some(Duration::from_millis(1000))),
            ("iwwc.activesong".to_string(), None),
        ]
    );
    assert!(smart_polls(&[]).is_empty());
}

#[test]
fn meminfo_checked_refuses_sizes_out_of_range() {
    let sample = "MemTotal:       8000 kB\nMemFree: 1000 kB\nMemAvailable:   2000 kB\n";
    assert_eq!(read_meminfo_checked(sample), read_meminfo(sample));
    assert_eq!(read_meminfo_checked("MemFree: 1000 kB\n"), None);
    let huge = "MemTotal: 170141183460469231731687303715884105727 kB\nMemAvailable: 0 kB\n";
    assert_eq!(read_meminfo_checked(huge), None);
    let wide = "MemTotal: 1 kB\nMemAvailable: -170141183460469231731687303715884105728 kB\n";
    assert_eq!(read_meminfo_checked(wide), None);
    assert_eq!(read_meminfo_checked("MemTotal: 3\nMemAvailable: 1\n"), Some((3072, 2048)));
}

use rinha2026::settings::{busy_poll, port, probe_count, warmup_count, workers};
use rinha2026::specialist::limits::Limits;

#[test]
fn ports() {
    assert_eq!(port(None), 9999);
    assert_eq!(port(Some(b"80")), 80);
    assert_eq!(port(Some(b"+8080")), 8080);
    assert_eq!(port(Some(b"65535")), 65535);
    assert_eq!(port(Some(b"65536")), 9999);
    assert_eq!(port(Some(b"-1")), 9999);
    assert_eq!(port(Some(b"")), 9999);
    assert_eq!(port(Some(b" 80")), 9999);
}

#[test]
fn other_counts() {
    assert_eq!(workers(None), 2);
    assert_eq!(workers(Some(b"0")), 0);
    assert_eq!(workers(Some(b"18446744073709551615")), usize::MAX);
    assert_eq!(workers(Some(b"18446744073709551616")), 2);
    assert_eq!(warmup_count(None), 2048);
    assert_eq!(warmup_count(Some(b"7")), 7);
    assert_eq!(probe_count(None), 192);
    assert_eq!(probe_count(Some(b"64")), 64);
    assert_eq!(probe_count(Some(b"4294967296")), 192);
}

#[test]
fn polling_times() {
    assert_eq!(busy_poll(None), 0);
    assert_eq!(busy_poll(Some(b"50")), 50);
    assert_eq!(busy_poll(Some(b"-50")), -50);
    assert_eq!(busy_poll(Some(b"-2147483648")), i32::MIN);
    assert_eq!(busy_poll(Some(b"2147483648")), 0);
    assert_eq!(busy_poll(Some(b"-")), 0);
}

#[test]
fn limits_of_searches() {
    let l = Limits::from_settings(None, None, None);
    assert!(!l.strong_decision);
    assert_eq!(l.early_distance_limit, 1_960_000);
    assert_eq!(l.early_candidates_limit, u32::MAX);
    let l = Limits::from_settings(Some(b"tRuE"), Some(b"-1"), Some(b"5000"));
    assert!(l.strong_decision);
    assert_eq!(l.early_distance_limit, -1);
    assert_eq!(l.early_candidates_limit, 5000);
    let l = Limits::from_settings(Some(b"1"), Some(b"x"), Some(b"-5"));
    assert!(l.strong_decision);
    assert_eq!(l.early_distance_limit, 1_960_000);
    assert_eq!(l.early_candidates_limit, u32::MAX);
    assert!(!Limits::from_settings(Some(b"yes"), None, None).strong_decision);
    assert!(!Limits::from_settings(Some(b"11"), None, None).strong_decision);
}

use rinha2026::evaluation::{
    find_entries, find_object_end, is_approved, is_specialist, next_entry, Step, Tally,
};

#[test]
fn ends_of_objects() {
    assert_eq!(find_object_end(b"{} x", 0), Some(2));
    assert_eq!(find_object_end(b"{\"a}\":{}}tail", 0), Some(9));
    assert_eq!(find_object_end(b"{\"\\\"}\"}tail", 0), Some(7));
    assert_eq!(find_object_end(b"12{}x", 0), Some(4));
    assert_eq!(find_object_end(b"{{}", 0), Some(3));
    assert_eq!(find_object_end(b"", 0), Some(0));
    assert_eq!(find_object_end(b"}{}}", 0), Some(4));
    assert_eq!(find_object_end(b"{\"\\", 0), None);
}

#[test]
fn walking_entries() {
    let data: &[u8] = b"{\"x\":1,\"entries\":[ {\"request\":{\"id\":\"a\"},\"expected_approved\":true},\n{\"expected_approved\":false,\"request\":{\"b\":{\"c\":\"}\"}}} ]}";
    let start = find_entries(data).unwrap();
    let entries = &data[start..];
    let first = match next_entry(entries, 0) {
        Step::Entry(e) => e,
        _ => panic!("no entry"),
    };
    assert_eq!(first.request, b"{\"id\":\"a\"}");
    assert!(first.expected);
    let second = match next_entry(entries, first.next) {
        Step::Entry(e) => e,
        _ => panic!("no entry"),
    };
    assert_eq!(second.request, b"{\"b\":{\"c\":\"}\"}}");
    assert!(!second.expected);
    assert!(matches!(next_entry(entries, second.next), Step::Done));
}

#[test]
fn broken_test_data() {
    assert_eq!(find_entries(b"{\"entry\":[]}"), None);
    assert!(matches!(next_entry(b"", 0), Step::Done));
    assert!(matches!(next_entry(b" , \n", 0), Step::Done));
    assert!(matches!(next_entry(b"{\"no\":{}}", 0), Step::Broken));
    assert!(matches!(next_entry(b"{\"request\": {}}", 0), Step::Broken));
    assert!(matches!(next_entry(b"{\"request\":{\"\\", 0), Step::Broken));
}

#[test]
fn tallies() {
    let mut t = Tally::new();
    t.record(2, true);
    t.record(3, false);
    t.record(0, false);
    t.record(5, true);
    t.record(1, false);
    assert_eq!(t.count, 5);
    assert_eq!(t.correct, 2);
    assert_eq!(t.false_positives, 1);
    assert_eq!(t.false_negatives, 2);
    assert_eq!(t.errors(), 3);
    assert_eq!(t.weighted_errors(), 7);
}

#[test]
fn three_of_five_deny() {
    assert!(is_approved(2));
    assert!(!is_approved(3));
    assert!(is_specialist(b"RSPECST2"));
    assert!(!is_specialist(b"RSPECST1"));
    assert!(!is_specialist(b"RSPECST"));
}

use rinha2026::bytes::eq_ascii_case;
use rinha2026::http::{find_crlf, find_seq, parse_request, parse_usize, RequestKind};

const POST: &[u8] =
    b"POST /fraud-score HTTP/1.1\r\nHost: x\r\nContent-Length: 5\r\n\r\nhelloGET /ready";

#[test]
fn fraud_score_with_body() {
    let r = parse_request(POST);
    assert_eq!(r.kind, RequestKind::FraudScore);
    assert_eq!(r.body, b"hello");
    assert_eq!(r.consumed, POST.len() - 10);
    assert!(r.keep_alive);
}

#[test]
fn ready_without_headers() {
    let r = parse_request(b"GET /ready HTTP/1.1\r\n\r\n");
    assert_eq!(r.kind, RequestKind::Ready);
    assert_eq!(r.body, b"");
    assert_eq!(r.consumed, 23);
    assert!(r.keep_alive);
}

#[test]
fn other_paths_and_methods_are_not_found() {
    for s in [
        &b"GET /fraud-score HTTP/1.1\r\n\r\n"[..],
        &b"POST /ready HTTP/1.1\r\n\r\n"[..],
        &b"GET /ready?x HTTP/1.1\r\n\r\n"[..],
        &b"get /ready HTTP/1.1\r\n\r\n"[..],
    ] {
        let r = parse_request(s);
        assert_eq!(r.kind, RequestKind::NotFound);
        assert_eq!(r.consumed, s.len());
    }
}

#[test]
fn request_line_needs_two_spaces() {
    assert_eq!(parse_request(b"GET /ready\r\n\r\n").kind, RequestKind::BadRequest);
    assert_eq!(parse_request(b"\r\n\r\n").kind, RequestKind::BadRequest);
    assert_eq!(parse_request(b"GET\r\nA: b\r\n\r\n").kind, RequestKind::BadRequest);
}

#[test]
fn incomplete_requests_need_more() {
    for n in 0..POST.len() - 10 {
        let r = parse_request(&POST[..n]);
        assert_eq!(r.kind, RequestKind::NeedMore);
        assert_eq!(r.consumed, 0);
        assert_eq!(r.body, b"");
    }
    assert_eq!(parse_request(&POST[..POST.len() - 10]).kind, RequestKind::FraudScore);
}

#[test]
fn later_bytes_change_nothing() {
    let whole = &POST[..POST.len() - 10];
    for more in [&b""[..], &b"x"[..], &b"\r\n\r\n"[..], &POST[..]] {
        let mut all = whole.to_vec();
        all.extend_from_slice(more);
        let r = parse_request(&all);
        assert_eq!(r.kind, RequestKind::FraudScore);
        assert_eq!(r.body, b"hello");
        assert_eq!(r.consumed, whole.len());
    }
}

#[test]
fn header_names_ignore_case_and_the_last_length_counts() {
    let r = parse_request(
        b"POST /fraud-score HTTP/1.1\r\nCONTENT-length:\t 3\r\nContent-Length: 2\r\n\r\nabcd",
    );
    assert_eq!(r.body, b"ab");
    let r = parse_request(b"GET /ready HTTP/1.1\r\ncOnNeCtIoN:   ClOsE\r\n\r\n");
    assert!(!r.keep_alive);
    let r = parse_request(b"GET /ready HTTP/1.1\r\nConnection: close \r\n\r\n");
    assert!(r.keep_alive);
    let r = parse_request(b"GET /ready HTTP/1.1\r\nno colon here\r\n\r\n");
    assert_eq!(r.kind, RequestKind::Ready);
}

#[test]
fn keep_alive_is_known_before_the_body() {
    let r = parse_request(b"POST /fraud-score HTTP/1.1\r\nConnection: close\r\nContent-Length: 9\r\n\r\n");
    assert_eq!(r.kind, RequestKind::NeedMore);
    assert!(!r.keep_alive);
}

#[test]
fn huge_lengths_wait_for_more() {
    let r = parse_request(
        b"POST /fraud-score HTTP/1.1\r\nContent-Length: 18446744073709551615\r\n\r\nabc",
    );
    assert_eq!(r.kind, RequestKind::NeedMore);
    let r = parse_request(
        b"POST /fraud-score HTTP/1.1\r\nContent-Length: 18446744073709551616\r\n\r\nabc",
    );
    assert_eq!(r.kind, RequestKind::FraudScore);
    assert_eq!(r.body, b"");
}

#[test]
fn lengths_are_read_up_to_the_first_other_byte() {
    assert_eq!(parse_usize(b"42"), Some(42));
    assert_eq!(parse_usize(b" 4\t2 "), Some(42));
    assert_eq!(parse_usize(b"42abc9"), Some(42));
    assert_eq!(parse_usize(b""), None);
    assert_eq!(parse_usize(b"  "), None);
    assert_eq!(parse_usize(b"x1"), None);
    assert_eq!(parse_usize(b"18446744073709551615"), Some(usize::MAX));
    assert_eq!(parse_usize(b"18446744073709551616"), None);
    assert_eq!(parse_usize(b"99999999999999999999x"), None);
}

#[test]
fn searching_bytes() {
    assert_eq!(find_seq(b"abcabc", b"ca"), Some(2));
    assert_eq!(find_seq(b"abc", b"abcd"), None);
    assert_eq!(find_seq(b"abc", b"d"), None);
    assert_eq!(find_crlf(b"a\r\nb\r\n", 0), Some(1));
    assert_eq!(find_crlf(b"a\r\nb\r\n", 2), Some(4));
    assert_eq!(find_crlf(b"a\r\n", 2), None);
    assert!(eq_ascii_case(b"aZ-9", b"Az-9"));
    assert!(!eq_ascii_case(b"a@", b"a`"));
    assert!(!eq_ascii_case(b"ab", b"abc"));
}

use rinha2026::balancer::{
    after_round, after_try, first_try, parse_upstreams, pick_upstream, Dispatch, Handover, Waiting,
    BAD_GATEWAY,
};

fn upstreams(s: &str) -> Vec<String> {
    let raw: Vec<char> = s.chars().collect();
    parse_upstreams(&raw).iter().map(|t| t.iter().collect::<String>()).collect()
}

fn reference(s: &str) -> Vec<String> {
    s.split(',').map(|t| t.trim().to_string()).filter(|t| !t.is_empty()).collect()
}

#[test]
fn lists_of_upstreams() {
    assert_eq!(upstreams("/a.sock, /b.sock ,,"), vec!["/a.sock", "/b.sock"]);
    for s in ["", ",", " , ", "a", " a b ,c", "\u{a0}x\u{3000},\u{2003}", "a,\u{200b},b", "\u{85}y\t\n"] {
        assert_eq!(upstreams(s), reference(s));
    }
}

#[test]
fn white_space_as_the_standard_library_knows_it() {
    for c in 0..0x11_0000u32 {
        if let Some(ch) = char::from_u32(c) {
            if ch != ',' && (ch.is_whitespace() || c < 0x3100) {
                let s: String = [ch, 'x'].iter().collect();
                assert_eq!(upstreams(&s), reference(&s), "{:x}", c);
            }
        }
    }
}

#[test]
fn every_upstream_once() {
    for n in 1..8usize {
        for start in [0usize, 1, 5, 1000, usize::MAX - 1, usize::MAX] {
            let mut seen = vec![false; n];
            for i in 0..n {
                let u = pick_upstream(start, i, n).unwrap();
                assert_eq!(u as u128, (start as u128 + i as u128) % n as u128);
                assert!(!seen[u]);
                seen[u] = true;
            }
            assert_eq!(pick_upstream(start, n, n), None);
        }
    }
    assert_eq!(pick_upstream(3, 0, 0), None);
    assert_eq!(pick_upstream(8, 1, 3), pick_upstream(7, 2, 3));
}

/// The upstreams that connection number `start` is handed to, and how it ends.
fn dispatch(start: usize, takes: &[bool]) -> (Vec<usize>, Dispatch) {
    let mut tried = Vec::new();
    let mut step = first_try(start, takes.len());
    while let Dispatch::Try(u) = step {
        tried.push(u);
        step = after_try(start, tried.len() - 1, takes.len(), takes[u]);
    }
    (tried, step)
}

#[test]
fn the_first_upstream_in_turn_that_takes_a_connection_gets_it() {
    assert_eq!(dispatch(0, &[true, true, true]), (vec![0], Dispatch::Sent));
    assert_eq!(dispatch(1, &[true, true, true]), (vec![1], Dispatch::Sent));
    assert_eq!(dispatch(4, &[true, false, false]), (vec![1, 2, 0], Dispatch::Sent));
    assert_eq!(dispatch(5, &[true, true, false]), (vec![2, 0], Dispatch::Sent));
}

#[test]
fn a_connection_that_nobody_takes_is_refused() {
    assert_eq!(dispatch(7, &[false, false, false]), (vec![1, 2, 0], Dispatch::Refuse));
    assert_eq!(dispatch(7, &[]), (vec![], Dispatch::Refuse));
    assert_eq!(after_try(0, usize::MAX, 3, false), Dispatch::Refuse);
    assert_eq!(
        &BAD_GATEWAY[..],
        &b"HTTP/1.1 502 Bad Gateway\r\nContent-Length: 0\r\nConnection: close\r\n\r\n"[..]
    );
}

#[test]
fn a_link_that_works_is_used_once() {
    let h = Handover::start(true);
    assert_eq!(h, Handover::Send);
    assert_eq!(h.next(true), Handover::Sent);
}

#[test]
fn a_broken_link_is_replaced_once() {
    let h = Handover::start(true).next(false);
    assert_eq!(h, Handover::Reconnect);
    assert_eq!(h.next(false), Handover::Unreachable);
    let h = h.next(true);
    assert_eq!(h, Handover::Resend);
    assert_eq!(h.next(true), Handover::Sent);
    assert_eq!(h.next(false), Handover::Refused);
    assert_eq!(Handover::Refused.next(true), Handover::Refused);
}

#[test]
fn a_missing_link_is_made_first() {
    let h = Handover::start(false);
    assert_eq!(h, Handover::Connect);
    assert_eq!(h.next(false), Handover::Unreachable);
    assert_eq!(h.next(true), Handover::Send);
}

#[test]
fn waiting_for_upstreams() {
    assert_eq!(after_round(0, 2, 2), Waiting::Ready);
    assert_eq!(after_round(0, 1, 2), Waiting::Again);
    assert_eq!(after_round(198, 1, 2), Waiting::Again);
    assert_eq!(after_round(199, 1, 2), Waiting::GiveUp);
    assert_eq!(after_round(199, 2, 2), Waiting::Ready);
}

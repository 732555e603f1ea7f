use rinha2026::json::ParseErr;
use rinha2026::normalize::Measures;
use rinha2026::references::{build_file, reference_row};
use rinha2026::server::{score, Arrival, Conn, Flush, Intake, Sent, Turn, NOT_FOUND, READ_BUF_SIZE};
use rinha2026::specialist::limits::Limits;
use rinha2026::specialist::SpecialistIndex;

const READY: &[u8] = b"GET /ready HTTP/1.1\r\n\r\n";
const READY_CLOSE: &[u8] = b"GET /ready HTTP/1.1\r\nConnection: close\r\n\r\n";

fn receive(c: &mut Conn, s: &[u8]) -> Intake {
    assert!(s.len() <= c.room());
    c.intake(Arrival::Bytes(s))
}

fn post(body: &[u8]) -> Vec<u8> {
    let mut s =
        format!("POST /fraud-score HTTP/1.1\r\nContent-Length: {}\r\n\r\n", body.len()).into_bytes();
    s.extend_from_slice(body);
    s
}

#[test]
fn not_found_text() {
    assert_eq!(
        &NOT_FOUND[..],
        b"HTTP/1.1 404 Not Found\r\nContent-Length: 0\r\nConnection: close\r\n\r\n"
    );
}

#[test]
fn requests_are_answered_in_order() {
    let mut c = Conn::new();
    let mut all = READY.to_vec();
    all.extend_from_slice(&post(b"{}"));
    all.extend_from_slice(READY);
    all.extend_from_slice(b"GET /rea");
    assert_eq!(c.start_intake(), Intake::Receive);
    for piece in all.chunks(7) {
        assert_eq!(receive(&mut c, piece), Intake::Receive);
    }
    assert_eq!(c.intake(Arrival::Nothing), Intake::Process);
    assert_eq!(c.advance(b"[r]"), Turn::Score);
    assert_eq!(c.unsent(), b"[r]");
    assert!(c.payload().is_ok());
    c.answer(b"[s]");
    assert_eq!(c.advance(b"[r]"), Turn::Flush);
    assert_eq!(c.unsent(), b"[r][s][r]");
    assert_eq!(c.room(), READ_BUF_SIZE - 8);
    assert_eq!(c.start_flush(), Flush::Send);
    assert_eq!(c.flush(Sent::Bytes(4)), Flush::Send);
    assert_eq!(c.unsent(), b"s][r]");
    assert_eq!(c.flush(Sent::Full), Flush::Wait);
    assert_eq!(c.flush(Sent::Bytes(5)), Flush::Idle);
    assert_eq!(c.unsent(), b"");
    receive(&mut c, b"dy HTTP/1.1\r\n\r\n");
    assert_eq!(c.advance(b"[r]"), Turn::Flush);
    assert_eq!(c.unsent(), b"[r]");
}

#[test]
fn several_payloads_in_one_go() {
    let mut c = Conn::new();
    let mut all = post(b"{}");
    all.extend_from_slice(&post(b"{\"id\":1}"));
    all.extend_from_slice(READY);
    all.extend_from_slice(&post(b" { } "));
    all.extend_from_slice(b"POST /fr");
    receive(&mut c, &all);
    for scored in [&b"[1]"[..], b"[2]", b"[3]"] {
        assert_eq!(c.advance(b"[r]"), Turn::Score);
        c.respond(scored, b"[f]");
    }
    assert_eq!(c.advance(b"[r]"), Turn::Flush);
    assert_eq!(c.unsent(), b"[1][f][r][3]");
    assert_eq!(c.room(), READ_BUF_SIZE - 8);
    assert_eq!(c.flush(Sent::Bytes(12)), Flush::Idle);
}

#[test]
fn closing_after_the_answer() {
    let mut c = Conn::new();
    receive(&mut c, READY_CLOSE);
    receive(&mut c, READY);
    assert_eq!(c.advance(b"[r]"), Turn::Flush);
    assert_eq!(c.unsent(), b"[r][r]");
    assert_eq!(c.flush(Sent::Bytes(6)), Flush::Close);
}

#[test]
fn unknown_paths_close_the_connection() {
    let mut c = Conn::new();
    receive(&mut c, b"GET / HTTP/1.1\r\n\r\n");
    receive(&mut c, READY);
    assert_eq!(c.advance(b"[r]"), Turn::Flush);
    assert_eq!(c.unsent(), &NOT_FOUND[..]);
    assert_eq!(c.room(), READ_BUF_SIZE - READY.len());
    assert_eq!(c.start_flush(), Flush::Send);
    assert_eq!(c.flush(Sent::Bytes(64)), Flush::Close);
}

#[test]
fn bad_requests_close_at_once() {
    let mut c = Conn::new();
    receive(&mut c, b"nonsense\r\n\r\n");
    assert_eq!(c.advance(b"[r]"), Turn::Close);
}

#[test]
fn a_full_buffer_closes() {
    let mut c = Conn::new();
    assert_eq!(c.room(), 8192);
    assert_eq!(receive(&mut c, &vec![b'x'; 8191]), Intake::Receive);
    assert_eq!(receive(&mut c, b"x"), Intake::Close);
    assert_eq!(c.start_intake(), Intake::Close);
    assert_eq!(c.room(), 0);
}

#[test]
fn peers_and_sockets_that_fail() {
    let mut c = Conn::new();
    assert_eq!(c.intake(Arrival::Closed), Intake::Close);
    receive(&mut c, READY);
    c.advance(b"[r]");
    assert_eq!(c.flush(Sent::Failed), Flush::Close);
}

#[test]
fn payloads_that_cannot_be_read() {
    let mut c = Conn::new();
    receive(&mut c, &post(b"{\"id\":"));
    assert_eq!(c.advance(b""), Turn::Score);
    assert!(matches!(c.payload(), Err(ParseErr::Unexpected)));
    c.respond(b"scored", b"fallback");
    assert_eq!(c.unsent(), b"fallback");
    let mut c = Conn::new();
    receive(&mut c, &post(b"{}"));
    assert_eq!(c.advance(b""), Turn::Score);
    c.respond(b"scored", b"fallback");
    assert_eq!(c.unsent(), b"scored");
}

#[test]
fn payloads_are_scored() {
    let mut rows = Vec::new();
    for i in 0..20 {
        let mut s = [0i32; 14];
        s[0] = 2000 + i;
        s[5] = -10000;
        s[6] = -10000;
        s[11] = 10000;
        s[12] = 5000;
        rows.push(reference_row(&s, if i < 5 { 1 } else { 0 }));
    }
    let limits =
        Limits { strong_decision: false, early_distance_limit: -1, early_candidates_limit: u32::MAX };
    let index = match SpecialistIndex::load(&build_file(&rows), limits) {
        Ok(i) => i,
        Err(e) => panic!("{:?}", e),
    };
    assert!(index.is_searchable());
    let mut c = Conn::new();
    receive(
        &mut c,
        &post(b"{\"transaction\":{\"requested_at\":\"2026-03-09T00:00:00Z\"}}"),
    );
    assert_eq!(c.advance(b""), Turn::Score);
    let p = match c.payload() {
        Ok(p) => p,
        Err(e) => panic!("{:?}", e),
    };
    let mut m = Measures {
        amount: 2000,
        installments: 0,
        amount_vs_avg: 0,
        minutes_since_last: 0,
        km_from_last: 0,
        km_from_home: 0,
        tx_count_24h: 0,
        merchant_avg: 0,
    };
    assert_eq!(score(&index, &p, &m), 5);
    m.amount = 2019;
    assert_eq!(score(&index, &p, &m), 0);
    m.amount = 2005;
    assert_eq!(score(&index, &p, &m), 2);
}

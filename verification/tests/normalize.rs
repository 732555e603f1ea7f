use rinha2026::json::parse_payload;
use rinha2026::normalize::{
    clamp16, day_of_week, is_placeable, knows_merchant, mcc_risk, parse_iso, seconds_since_last,
    ts_to_epoch, vectorize_int16, Measures,
};

const NOTHING: Measures = Measures {
    amount: 0,
    installments: 0,
    amount_vs_avg: 0,
    minutes_since_last: 0,
    km_from_last: 0,
    km_from_home: 0,
    tx_count_24h: 0,
    merchant_avg: 0,
};

/// A feature as 32-bit floating-point arithmetic gives it.
fn scaled(x: f32) -> i16 {
    let rounded = (x * 10000.0).round() / 10000.0;
    let s = (rounded * 10000.0).round() as i32;
    s.clamp(i16::MIN as i32, i16::MAX as i32) as i16
}

fn clamp01(x: f32) -> f32 {
    if x < 0.0 {
        0.0
    } else if x > 1.0 {
        1.0
    } else {
        x
    }
}

fn body_at(ts: &str) -> Vec<u8> {
    format!("{{\"transaction\":{{\"requested_at\":\"{}\"}}}}", ts).into_bytes()
}

#[test]
fn dow_2026() {
    assert_eq!(day_of_week(2026, 3, 11), 2);
    assert_eq!(day_of_week(2026, 3, 14), 5);
}

#[test]
fn epoch_matches_python() {
    assert_eq!(ts_to_epoch(2026, 3, 11, 18, 45, 53), 1773254753);
    let a = ts_to_epoch(2026, 3, 11, 18, 45, 53);
    let b = ts_to_epoch(2026, 3, 11, 14, 58, 35);
    assert_eq!((a - b) / 60, 227);
}

#[test]
fn epoch_of_known_days() {
    assert_eq!(ts_to_epoch(1970, 1, 1, 0, 0, 0), 0);
    assert_eq!(ts_to_epoch(2000, 2, 29, 0, 0, 0), 951782400);
    assert_eq!(ts_to_epoch(2000, 3, 1, 0, 0, 0), 951868800);
    assert_eq!(ts_to_epoch(1969, 12, 31, 23, 59, 59), -1);
}

#[test]
fn days_of_the_week_follow_the_days() {
    let mut last = day_of_week(1970, 1, 1);
    assert_eq!(last, 3);
    for y in 1970..2070 {
        for m in 1..13 {
            let length = match m {
                4 | 6 | 9 | 11 => 30,
                2 if y % 4 == 0 && (y % 100 != 0 || y % 400 == 0) => 29,
                2 => 28,
                _ => 31,
            };
            for d in 1..length + 1 {
                let days = ts_to_epoch(y, m, d, 0, 0, 0) / 86400;
                let today = day_of_week(y, m, d);
                assert_eq!(today as i64, (days + 3) % 7);
                if days > 0 {
                    assert_eq!(today, (last + 1) % 7);
                }
                last = today;
            }
        }
    }
}

#[test]
fn moments_are_read_by_place() {
    assert_eq!(parse_iso(b"2026-03-11T18:45:53Z"), (2026, 3, 11, 18, 45, 53));
    assert_eq!(parse_iso(b"20x6_03?11 18:4a:53"), (206, 3, 11, 18, 4, 53));
}

#[test]
fn category_risks() {
    let table: [(&[u8], i32); 11] = [
        (b"5411", 1500),
        (b"5812", 3000),
        (b"5912", 2000),
        (b"5944", 4500),
        (b"7801", 8000),
        (b"7802", 7500),
        (b"7995", 8500),
        (b"4511", 3500),
        (b"5311", 2500),
        (b"5999", 5000),
        (b"541", 5000),
    ];
    for (mcc, risk) in table {
        assert_eq!(mcc_risk(mcc), risk);
    }
}

#[test]
fn hours_as_floats() {
    for h in 0..100 {
        let body = body_at(&format!("2026-03-11T{:02}:00:00Z", h));
        let p = parse_payload(&body).unwrap();
        let v = vectorize_int16(&p, &NOTHING);
        assert_eq!(v[3], scaled(h as f32 / 23.0), "{}", h);
    }
}

#[test]
fn weekdays_as_floats() {
    for d in 1..8 {
        let body = body_at(&format!("2026-03-{:02}T00:00:00Z", d));
        let p = parse_payload(&body).unwrap();
        let v = vectorize_int16(&p, &NOTHING);
        assert_eq!(v[4], scaled(day_of_week(2026, 3, d) as f32 / 6.0));
    }
}

#[test]
fn counts_as_floats() {
    let body = body_at("2026-03-11T00:00:00Z");
    let p = parse_payload(&body).unwrap();
    let mut counts: Vec<i32> = (-40..80).collect();
    counts.extend_from_slice(&[i32::MIN, i32::MAX, 1000, -1000]);
    for n in counts {
        let m = Measures { installments: n, tx_count_24h: n, ..NOTHING };
        let v = vectorize_int16(&p, &m);
        assert_eq!(v[1], scaled(clamp01(n as f32 / 12.0)), "{}", n);
        assert_eq!(v[8], scaled(clamp01(n as f32 / 20.0)), "{}", n);
    }
}

#[test]
fn a_whole_vector() {
    let body = br#"{
        "transaction":{"amount":41.12,"installments":2,"requested_at":"2026-03-11T18:45:53Z"},
        "customer":{"avg_amount":82.24,"tx_count_24h":3,"known_merchants":["MERC-003","MERC-016"]},
        "merchant":{"id":"MERC-016","mcc":"5411","avg_amount":60.25},
        "terminal":{"is_online":false,"card_present":true,"km_from_home":29.23},
        "last_transaction":null}"#;
    let p = parse_payload(body).unwrap();
    let m = Measures {
        amount: 41,
        installments: 2,
        amount_vs_avg: 500,
        minutes_since_last: 77,
        km_from_last: 88,
        km_from_home: 292,
        tx_count_24h: 3,
        merchant_avg: 60,
    };
    assert_eq!(
        vectorize_int16(&p, &m),
        [41, 1667, 500, 7826, 3333, -10000, -10000, 292, 1500, 0, 10000, 0, 1500, 60]
    );
}

#[test]
fn a_previous_transaction_is_measured() {
    let body = br#"{
        "transaction":{"requested_at":"2026-03-11T18:45:53Z"},
        "merchant":{"id":"M"},
        "terminal":{"is_online":true},
        "last_transaction":{"timestamp":"2026-03-11T14:58:35Z","km_from_current":1}}"#;
    let p = parse_payload(body).unwrap();
    assert_eq!(seconds_since_last(&p), Some(13638));
    let m = Measures { minutes_since_last: 1578, km_from_last: 40000, ..NOTHING };
    let v = vectorize_int16(&p, &m);
    assert_eq!(v[5], 1578);
    assert_eq!(v[6], i16::MAX);
    assert_eq!(v[9], 10000);
    assert_eq!(v[11], 10000);
    assert!(!knows_merchant(&p));
}

#[test]
fn moments_that_cannot_be_placed() {
    let good = body_at("2026-12-11T18:45:53Z");
    assert!(is_placeable(&parse_payload(&good).unwrap()));
    for ts in ["2026-13-11T18:45:53Z", "2026-00-11T18:45:53Z", "2026-12-11T18:45:5", ""] {
        let body = body_at(ts);
        assert!(!is_placeable(&parse_payload(&body).unwrap()));
    }
    let mut body = body_at("2026-12-11T18:45:53Z");
    body.pop();
    body.extend_from_slice(b",\"last_transaction\":{}}");
    assert!(!is_placeable(&parse_payload(&body).unwrap()));
    let none = parse_payload(&good).unwrap();
    assert_eq!(seconds_since_last(&none), None);
}

#[test]
fn features_lie_between_zero_and_one() {
    let m = Measures {
        amount: 10000,
        installments: 99,
        amount_vs_avg: 10000,
        minutes_since_last: 10000,
        km_from_last: 10000,
        km_from_home: 10000,
        tx_count_24h: 99,
        merchant_avg: 10000,
    };
    for ts in ["2026-03-11T23:59:59Z", "2026-03-15T00:00:00Z"] {
        let body = body_at(ts);
        let p = parse_payload(&body).unwrap();
        for measures in [&m, &NOTHING] {
            let v = vectorize_int16(&p, measures);
            for d in 0..14 {
                let low = if d == 5 || d == 6 { -10000 } else { 0 };
                assert!(low <= v[d] && v[d] <= 10000);
            }
        }
    }
}

#[test]
fn sixteen_bits_at_most() {
    assert_eq!(clamp16(i32::MAX), i16::MAX);
    assert_eq!(clamp16(i32::MIN), i16::MIN);
    assert_eq!(clamp16(-12345), -12345);
}

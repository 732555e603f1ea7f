use rinha2026::json::{parse_payload, Number, ParseErr, Payload};

fn value(n: Number) -> f64 {
    std::str::from_utf8(n.text).unwrap().parse::<f64>().unwrap()
}

fn error(body: &[u8]) -> ParseErr {
    match parse_payload(body) {
        Ok(_) => panic!("no error"),
        Err(e) => e,
    }
}

fn merchants<'a>(p: &Payload<'a>) -> Vec<&'a [u8]> {
    p.known_merchants[..p.known_n].to_vec()
}

#[test]
fn parse_legit_example() {
    let body = br#"{
            "id":"tx-1329056812",
            "transaction":{"amount":41.12,"installments":2,"requested_at":"2026-03-11T18:45:53Z"},
            "customer":{"avg_amount":82.24,"tx_count_24h":3,"known_merchants":["MERC-003","MERC-016"]},
            "merchant":{"id":"MERC-016","mcc":"5411","avg_amount":60.25},
            "terminal":{"is_online":false,"card_present":true,"km_from_home":29.23},
            "last_transaction":null
        }"#;
    let p = parse_payload(body).unwrap();
    assert!((value(p.amount) as f32 - 41.12).abs() < 1e-3);
    assert_eq!(value(p.installments) as i32, 2);
    assert_eq!(p.requested_at, b"2026-03-11T18:45:53Z");
    assert!((value(p.customer_avg) as f32 - 82.24).abs() < 1e-3);
    assert_eq!(value(p.tx_count_24h) as i32, 3);
    assert_eq!(p.known_n, 2);
    assert_eq!(p.known_merchants[0], b"MERC-003");
    assert_eq!(p.known_merchants[1], b"MERC-016");
    assert_eq!(p.merchant_id, b"MERC-016");
    assert_eq!(p.merchant_mcc, b"5411");
    assert!((value(p.merchant_avg) as f32 - 60.25).abs() < 1e-3);
    assert!(!p.is_online);
    assert!(p.card_present);
    assert!((value(p.terminal_km_from_home) as f32 - 29.23).abs() < 1e-3);
    assert!(p.last_transaction.is_none());
}

#[test]
fn an_empty_object_is_a_blank_payload() {
    let p = parse_payload(b" {} ").unwrap();
    assert_eq!(p.amount.text, b"0");
    assert_eq!(p.known_n, 0);
    assert_eq!(p.requested_at, b"");
    assert!(p.last_transaction.is_none());
}

#[test]
fn keys_in_any_order() {
    let a = parse_payload(
        br#"{"merchant":{"id":"M","mcc":"7995"},"terminal":{"is_online":true,"km_from_home":1e2}}"#,
    )
    .unwrap();
    let b = parse_payload(
        br#"{"terminal":{"km_from_home":1e2,"is_online":true},"merchant":{"mcc":"7995","id":"M"}}"#,
    )
    .unwrap();
    for p in [a, b] {
        assert_eq!(p.merchant_id, b"M");
        assert_eq!(p.merchant_mcc, b"7995");
        assert!(p.is_online);
        assert_eq!(value(p.terminal_km_from_home), 100.0);
    }
}

#[test]
fn keys_in_any_order_in_every_object() {
    let a = parse_payload(
        br#"{"id":"x","transaction":{"amount":1.5,"installments":2,"requested_at":"R"},"customer":{"avg_amount":3,"tx_count_24h":4,"known_merchants":["a","b"]},"merchant":{"id":"M","mcc":"7995","avg_amount":5},"terminal":{"is_online":true,"card_present":false,"km_from_home":6},"last_transaction":{"timestamp":"T","km_from_current":7},"other":{"p":[1,null],"q":true}}"#,
    )
    .unwrap();
    let b = parse_payload(
        b" { \"other\" : {\"q\":true ,\n\"p\" : [ 1 , null ] } , \"last_transaction\":\t{ \"km_from_current\" :7 , \"timestamp\": \"T\" } , \"terminal\" : { \"km_from_home\" : 6 ,\r\n\"card_present\" : false , \"is_online\" : true } , \"merchant\" : { \"avg_amount\" : 5 , \"mcc\" : \"7995\" , \"id\" : \"M\" } , \"customer\" : { \"known_merchants\" : [ \"a\" , \"b\" ] , \"tx_count_24h\" : 4 , \"avg_amount\" : 3 } , \"transaction\" : { \"requested_at\" : \"R\" , \"installments\" : 2 , \"amount\" : 1.5 } , \"id\" : \"x\" } behind",
    )
    .unwrap();
    for p in [a, b] {
        assert_eq!(p.amount.text, b"1.5");
        assert_eq!(p.installments.text, b"2");
        assert_eq!(p.requested_at, b"R");
        assert_eq!(p.customer_avg.text, b"3");
        assert_eq!(p.tx_count_24h.text, b"4");
        assert_eq!(merchants(&p), vec![&b"a"[..], &b"b"[..]]);
        assert_eq!(p.merchant_id, b"M");
        assert_eq!(p.merchant_mcc, b"7995");
        assert_eq!(p.merchant_avg.text, b"5");
        assert!(p.is_online);
        assert!(!p.card_present);
        assert_eq!(p.terminal_km_from_home.text, b"6");
        let l = p.last_transaction.unwrap();
        assert_eq!(l.timestamp, b"T");
        assert_eq!(l.km_from_current.text, b"7");
    }
}

#[test]
fn white_space_between_tokens() {
    let p = parse_payload(
        b"\r\n { \"terminal\" :\t{ \"card_present\" : true , \"is_online\":\n false } } trailing",
    )
    .unwrap();
    assert!(p.card_present);
    assert!(!p.is_online);
}

#[test]
fn commas_may_be_missing_or_trail() {
    let p = parse_payload(br#"{"merchant":{"id":"A" "mcc":"B",},"id":"x" "terminal":{}}"#).unwrap();
    assert_eq!(p.merchant_id, b"A");
    assert_eq!(p.merchant_mcc, b"B");
    let p = parse_payload(br#"{"customer":{"known_merchants":["a" "b",]}}"#).unwrap();
    assert_eq!(merchants(&p), vec![&b"a"[..], &b"b"[..]]);
}

#[test]
fn the_last_of_two_equal_keys_counts() {
    let p = parse_payload(br#"{"merchant":{"id":"A","id":"B"},"last_transaction":{},"last_transaction":null}"#).unwrap();
    assert_eq!(p.merchant_id, b"B");
    assert!(p.last_transaction.is_none());
}

#[test]
fn previous_transactions() {
    let p = parse_payload(
        br#"{"last_transaction":{"km_from_current":-3.5,"x":[1,{"y":null}],"timestamp":"T"}}"#,
    )
    .unwrap();
    let l = p.last_transaction.unwrap();
    assert_eq!(l.timestamp, b"T");
    assert_eq!(value(l.km_from_current), -3.5);
    let l = parse_payload(br#"{"last_transaction":{}}"#).unwrap().last_transaction.unwrap();
    assert_eq!(l.timestamp, b"");
    assert_eq!(l.km_from_current.text, b"0");
}

#[test]
fn no_more_than_sixteen_merchants_are_kept() {
    let mut body = b"{\"customer\":{\"known_merchants\":[".to_vec();
    for i in 0..20 {
        if i > 0 {
            body.push(b',');
        }
        body.extend_from_slice(format!("\"m{}\"", i).as_bytes());
    }
    body.extend_from_slice(b"]}}");
    let p = parse_payload(&body).unwrap();
    assert_eq!(p.known_n, 16);
    assert_eq!(p.known_merchants[0], b"m0");
    assert_eq!(p.known_merchants[15], b"m15");
}

#[test]
fn unknown_members_are_passed_over() {
    let p = parse_payload(
        br#"{"a":1.5,"b":"s","c":[],"d":{"e":[true,false,null,{"f":"g"}],"h":-1},"i":null,"merchant":{"id":"M"}}"#,
    )
    .unwrap();
    assert_eq!(p.merchant_id, b"M");
}

#[test]
fn errors_of_payloads() {
    assert_eq!(error(b""), ParseErr::Unexpected);
    assert_eq!(error(b"[]"), ParseErr::Unexpected);
    assert_eq!(error(b"{"), ParseErr::Unexpected);
    assert_eq!(error(br#"{"id":"abc"#), ParseErr::EndOfInput);
    assert_eq!(error(br#"{"x":"#), ParseErr::EndOfInput);
    assert_eq!(error(br#"{"id":"a\"b"}"#), ParseErr::Unexpected);
    assert_eq!(error(br#"{"id":1}"#), ParseErr::Unexpected);
    assert_eq!(error(br#"{"id" "a"}"#), ParseErr::Unexpected);
    assert_eq!(error(br#"{"terminal":{"is_online":1}}"#), ParseErr::Unexpected);
    assert_eq!(error(br#"{"terminal":{"is_online":tru}}"#), ParseErr::Unexpected);
    assert_eq!(error(br#"{"x":nope}"#), ParseErr::Unexpected);
    assert_eq!(error(br#"{"x":[1 2]}"#), ParseErr::Unexpected);
    assert_eq!(error(br#"{"x":{"a":1 "b":2}}"#), ParseErr::Unexpected);
    assert_eq!(error(br#"{"last_transaction":"no"}"#), ParseErr::Unexpected);
}

#[test]
fn numbers_are_what_the_standard_library_reads() {
    let texts = [
        "0", "-0", "+1", "1.", ".5", "-.5", "1.5", "1e5", "1E+5", "1e-5", "1.e3", ".5e3", "", "-",
        "+", ".", "-.", "e5", "1e", "1e+", "--1", "1-", "1+2", "1.2.3", "1e5.0", "1ee5", "00012",
        "1e400", "-1e400", "123456789012345678901234567890", "+-1", "5e-", "5.e", "..1", "1.-",
    ];
    for t in texts {
        let body = format!("{{\"transaction\":{{\"amount\":{}}}}}", t);
        let got = parse_payload(body.as_bytes());
        match t.parse::<f64>() {
            Ok(x) => {
                let p = got.unwrap();
                assert_eq!(p.amount.text, t.as_bytes());
                assert_eq!(value(p.amount), x);
            }
            Err(_) => assert!(matches!(got, Err(ParseErr::Unexpected)), "{}", t),
        }
    }
}

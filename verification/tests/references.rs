use flate2::write::GzEncoder;
use flate2::Compression;
use rinha2026::references::{read_references, read_rows, read_text, RawRow, ReferenceErr};
use std::io::Write;

fn gz(text: &[u8]) -> Vec<u8> {
    let mut e = GzEncoder::new(Vec::new(), Compression::default());
    e.write_all(text).unwrap();
    e.finish().unwrap()
}

fn vector(values: &[&str]) -> String {
    format!("[{}]", values.join(","))
}

fn row(values: &[&str], label: &str) -> String {
    format!("{{\"label\":{},\"vector\":{}}}", label, vector(values))
}

fn failure(r: Result<Vec<RawRow>, ReferenceErr>) -> ReferenceErr {
    match r {
        Ok(_) => panic!("no error"),
        Err(e) => e,
    }
}

const FOURTEEN: [&str; 14] =
    ["0.5", "1", "-1", "0", "1e-3", "2", "3", "4", "5", "6", "7", "8", "9", "0.1234"];

#[test]
fn compressed_rows_are_read() {
    let text = format!("[{},{}]", row(&FOURTEEN, "\"fraud\""), row(&["0"; 14], "\"legit\""));
    let rows = match read_references(&gz(text.as_bytes())) {
        Ok(r) => r,
        Err(e) => panic!("{:?}", e),
    };
    assert_eq!(rows.len(), 2);
    assert_eq!(rows[0].label, 1);
    assert_eq!(rows[1].label, 0);
    for d in 0..14 {
        assert_eq!(f64::from_bits(rows[0].bits[d]), FOURTEEN[d].parse::<f64>().unwrap());
        assert_eq!(f64::from_bits(rows[1].bits[d]), 0.0);
    }
}

#[test]
fn plain_text_and_values_are_read() {
    let text = format!("[{}]", row(&FOURTEEN, "\"legit\""));
    assert!(matches!(read_text(&text), Ok(r) if r.len() == 1 && r[0].label == 0));
    let v: serde_json::Value = serde_json::from_str(&text).unwrap();
    assert!(matches!(read_rows(&v), Ok(r) if r[0].bits[0] == 0.5f64.to_bits()));
    assert!(matches!(read_text("[]"), Ok(r) if r.is_empty()));
}

#[test]
fn data_that_is_not_compressed() {
    assert!(matches!(failure(read_references(b"[]")), ReferenceErr::Compression));
    let whole = gz(b"[]");
    assert!(matches!(failure(read_references(&whole[..whole.len() - 9])), ReferenceErr::Compression));
    assert!(matches!(failure(read_references(&gz(b"\"\xff\""))), ReferenceErr::Compression));
    assert!(matches!(read_references(&whole), Ok(r) if r.is_empty()));
}

#[test]
fn texts_that_are_no_rows() {
    assert!(matches!(failure(read_text("[")), ReferenceErr::Syntax));
    assert!(matches!(failure(read_text("{}")), ReferenceErr::NotAnArray));
    assert!(matches!(failure(read_text("[1]")), ReferenceErr::MissingVector));
    assert!(matches!(failure(read_text("[{\"label\":\"fraud\"}]")), ReferenceErr::MissingVector));
    assert!(matches!(failure(read_text("[{\"vector\":1}]")), ReferenceErr::MissingVector));
    assert!(matches!(failure(read_text("[{\"vector\":[1,2]}]")), ReferenceErr::WrongDims(2)));
    let mut odd = FOURTEEN;
    odd[13] = "\"x\"";
    assert!(matches!(failure(read_text(&format!("[{}]", row(&odd, "\"nope\"")))), ReferenceErr::NonFloatDim));
    assert!(matches!(failure(read_text(&format!("[{}]", row(&FOURTEEN, "1")))), ReferenceErr::MissingLabel));
    match failure(read_text(&format!("[{}]", row(&FOURTEEN, "\"maybe\"")))) {
        ReferenceErr::UnknownLabel(t) => assert_eq!(t, "maybe"),
        e => panic!("{:?}", e),
    }
}

#[test]
fn the_first_fault_counts() {
    let text = format!("[{},{},7]", row(&FOURTEEN, "\"fraud\""), row(&FOURTEEN, "\"Fraud\""));
    assert!(matches!(failure(read_text(&text)), ReferenceErr::UnknownLabel(t) if t == "Fraud"));
}

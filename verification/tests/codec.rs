use udb_lab::spi::bytes::{put32, put64};
use udb_lab::spi::page::{encode_rows, Record, Row, Value, DELTA_BYTES, MAX_DEPTH};

const MAX_VALUE: usize = 16 * 1024 * 1024;

fn base(rows: &[Row]) -> Vec<u8> {
    let mut bytes = udb_lab::spi::page::base_mark_bytes();
    bytes.extend_from_slice(&(rows.len() as u32).to_le_bytes());
    bytes.extend_from_slice(&0u32.to_le_bytes());
    encode_rows(rows, &mut bytes);
    bytes
}

fn row(key: Vec<u8>, revision: u64, value: Value) -> Row {
    Row {
        key,
        revision,
        value,
    }
}

fn fixture() -> Vec<Row> {
    vec![
        row(vec![], 1, Value::Inline(vec![])),
        row(vec![0, 255], 2, Value::Inline(vec![13; 1024])),
        row(vec![255; 4096], 3, Value::Overflow { at: 8, len: 1025 }),
    ]
}

#[test]
fn packed_codec_rejects_truncation_and_malformed_valid_crc_payloads() {
    let bytes = base(&fixture());
    let valid = Record::parse(3, bytes.clone(), 10000, 3).unwrap();
    assert_eq!(valid.rows().len(), 3);
    assert_eq!(valid.find(&[]).unwrap().revision, 1);
    assert!(valid.find(&[1]).is_none());
    for n in 0..bytes.len() {
        assert!(
            Record::parse(3, bytes[..n].to_vec(), 10000, 3).is_err(),
            "truncation {n}"
        );
    }
    let mut trailing = bytes.clone();
    trailing.push(0);
    assert!(Record::parse(3, trailing, 10000, 3).is_err());
    for (at, value) in [(8, u32::MAX), (12, 1), (16, 4097), (20, u32::MAX)] {
        let mut bad = bytes.clone();
        put32(&mut bad, at, value);
        assert!(Record::parse(3, bad, 10000, 3).is_err(), "u32 at {at}");
    }
    for (at, value) in [(24, 0), (24, 4), (32, 10000)] {
        let mut bad = bytes.clone();
        put64(&mut bad, at, value);
        assert!(Record::parse(3, bad, 10000, 3).is_err(), "u64 at {at}");
    }
    assert!(Record::parse(3, bytes.clone(), 10000, 0).is_err());
    assert!(Record::parse(2, bytes, 10000, 3).is_err());
    let same = base(&[
        row(vec![1], 1, Value::Inline(vec![])),
        row(vec![1], 1, Value::Inline(vec![])),
    ]);
    assert!(Record::parse(3, same, 10000, 1).is_err());
}

fn delta() -> Vec<u8> {
    let changes = vec![row(b"a".to_vec(), 2, Value::Deleted)];
    let mut bytes = udb_lab::spi::page::delta_mark_bytes();
    bytes.extend_from_slice(&8u64.to_le_bytes());
    bytes.extend_from_slice(&1u32.to_le_bytes());
    bytes.extend_from_slice(&1u32.to_le_bytes());
    bytes.extend_from_slice(&57u32.to_le_bytes());
    bytes.extend_from_slice(&0u32.to_le_bytes());
    encode_rows(&changes, &mut bytes);
    bytes
}

#[test]
fn packed_codec_delta_limits_and_overflow_links_are_checked() {
    let bytes = delta();
    assert_eq!(bytes.len(), 57);
    assert!(matches!(
        Record::parse(4, bytes.clone(), 10000, 2)
            .unwrap()
            .find(b"a")
            .unwrap()
            .value,
        Value::Deleted
    ));
    for (at, value) in [
        (16, 0),
        (16, MAX_DEPTH + 1),
        (20, 2),
        (24, 56),
        (24, DELTA_BYTES as u32 + 1),
        (28, 1),
    ] {
        let mut bad = bytes.clone();
        put32(&mut bad, at, value);
        assert!(
            Record::parse(4, bad, 10000, 2).is_err(),
            "delta {at}={value}"
        );
    }
    for value in [0, 7, 10000, u64::MAX] {
        let mut bad = bytes.clone();
        put64(&mut bad, 8, value);
        assert!(Record::parse(4, bad, 10000, 2).is_err());
    }
    let inline_too_large = base(&[row(vec![], 1, Value::Inline(vec![0; 1025]))]);
    assert!(Record::parse(3, inline_too_large, 10000, 1).is_err());
    for (at, len) in [(7, 1025), (10000, 1025), (8, 1024), (8, MAX_VALUE + 1)] {
        let bad = base(&[row(vec![], 1, Value::Overflow { at, len })]);
        assert!(Record::parse(3, bad, 10000, 1).is_err());
    }
}

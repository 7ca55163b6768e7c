use tinydb::error::DbError;
use tinydb::row::Row;

#[test]
fn encode_layout() {
    let row = Row { id: 1, fields: vec!["ab".into()] };
    assert_eq!(
        row.encode(),
        vec![1, 0, 0, 0, 0, 0, 0, 0, 1, 0, 0, 0, 2, 0, 0, 0, b'a', b'b']
    );
}

#[test]
fn decode_encode_roundtrip() {
    let row = Row { id: -42, fields: vec!["héllo".into(), "".into(), "日本".into()] };
    let back = Row::decode(&row.encode()).unwrap();
    assert_eq!(back.id, -42);
    assert_eq!(back.fields, row.fields);
}

#[test]
fn decode_rejects_invalid_utf8() {
    let bytes = vec![5, 0, 0, 0, 0, 0, 0, 0, 1, 0, 0, 0, 2, 0, 0, 0, 0xff, 0xfe];
    match Row::decode(&bytes) {
        Err(DbError::Parse(m)) => assert_eq!(m, "UTF-8"),
        _ => panic!("expected a parse error"),
    }
}

#[test]
fn decode_ignores_trailing_bytes() {
    let mut bytes = Row { id: 3, fields: vec!["x".into()] }.encode();
    bytes.extend_from_slice(&[9, 9, 9]);
    let row = Row::decode(&bytes).unwrap();
    assert_eq!(row.id, 3);
    assert_eq!(row.fields, vec!["x".to_string()]);
}

#[test]
fn decode_stops_at_first_invalid_field_before_a_short_one() {
    let mut bytes = Vec::new();
    bytes.extend_from_slice(&5i64.to_le_bytes());
    bytes.extend_from_slice(&2u32.to_le_bytes());
    bytes.extend_from_slice(&1u32.to_le_bytes());
    bytes.push(0xff);
    bytes.extend_from_slice(&100u32.to_le_bytes());
    bytes.extend_from_slice(b"ab");
    assert!(!Row::is_complete(&bytes));
    match Row::decode(&bytes) {
        Err(DbError::Parse(m)) => assert_eq!(m, "UTF-8"),
        _ => panic!("expected a parse error"),
    }
}

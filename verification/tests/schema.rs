use bond_rs::{encode_schema_request, BondRow, BondSchema};

// The native marshaller is not linked into the tests: the schema and row are
// built from marshaled bytes given here.
fn marshaled_schema_stand_in(fields: &[(&str, u8, u16)]) -> Vec<u8> {
    let mut bytes = vec![0x53, 0x50];
    bytes.extend_from_slice(&encode_schema_request(fields));
    bytes
}

#[test]
fn test_bond_schema_from_fields() {
    let fields = &[
        ("foo", 16u8, 1u16), // BT_INT32 = 16
        ("bar", 9u8, 2u16),  // BT_STRING = 9
    ];
    let schema = BondSchema::from_fields(fields, marshaled_schema_stand_in(fields));
    // Should be accessible
    assert!(!schema.as_bytes().is_empty());
}

#[test]
fn test_bond_row_from_schema_and_row() {
    let fields = &[
        ("foo", 16u8, 1u16), // BT_INT32 = 16
        ("bar", 9u8, 2u16),  // BT_STRING = 9
    ];
    let schema = BondSchema::from_fields(fields, marshaled_schema_stand_in(fields));

    // Compose a row: foo = 42i32; bar = "hello"
    let mut row = Vec::new();
    row.extend_from_slice(&42i32.to_le_bytes()); // foo
    let s = "hello";
    row.extend_from_slice(&(s.len() as u16).to_le_bytes()); // bar string length (u16 LE)
    row.extend_from_slice(s.as_bytes()); // bar string bytes

    let bond_row = BondRow::from_marshaled(row.clone());
    assert!(!schema.as_bytes().is_empty());
    assert!(!bond_row.as_bytes().is_empty());
    assert!(!bond_row.as_bytes().is_empty());
    assert_eq!(bond_row.as_bytes(), &row[..]);
}

#[test]
fn schema_request_layout() {
    let fields = &[("foo", 16u8, 1u16), ("bar", 9u8, 2u16)];
    let req = encode_schema_request(fields);
    assert_eq!(
        req,
        vec![2, 0, 3, b'f', b'o', b'o', 16, 1, 0, 3, b'b', b'a', b'r', 9, 2, 0]
    );
}

#[test]
fn schema_request_empty_and_unicode_names() {
    assert_eq!(encode_schema_request(&[]), vec![0, 0]);
    // "é" is two UTF-8 bytes; field id 0x0102 is stored little-endian.
    let req = encode_schema_request(&[("é", 7, 0x0102)]);
    assert_eq!(req, vec![1, 0, 2, 0xC3, 0xA9, 7, 0x02, 0x01]);
}

#[test]
fn schema_request_name_length_truncates() {
    let long = "x".repeat(300);
    let req = encode_schema_request(&[(long.as_str(), 9, 1)]);
    assert_eq!(req[2], (300 % 256) as u8);
    assert_eq!(req.len(), 2 + 1 + 300 + 1 + 2);
}

#[test]
fn schema_keeps_fields_and_bytes() {
    let fields = &[("a", 16u8, 1u16)];
    let schema = BondSchema::from_fields(fields, vec![9, 8, 7]);
    assert_eq!(schema.as_bytes(), &[9, 8, 7]);
    assert_eq!(schema.request_bytes(), encode_schema_request(fields));
    let copy = schema.duplicate();
    assert_eq!(copy.as_bytes(), schema.as_bytes());
    assert_eq!(copy.request_bytes(), schema.request_bytes());
    let cloned = schema.clone();
    assert_eq!(cloned.as_bytes(), &[9, 8, 7]);
    assert_eq!(cloned.request_bytes(), encode_schema_request(fields));
}

#[test]
fn row_keeps_bytes() {
    let row = BondRow::from_marshaled(vec![]);
    assert!(row.as_bytes().is_empty());
    let row = BondRow::from_marshaled(vec![1, 2, 3]);
    assert_eq!(row.as_bytes(), &[1, 2, 3]);
}

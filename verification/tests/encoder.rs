use bond_rs::central_bond::TERMINATOR;
use bond_rs::encoder::{encode_blob, schema_fields, str_lt, BondEncoder, BondValue, SchemaStep};
use bond_rs::utf16::utf8_to_utf16le_bytes;
use bond_rs::{encode_schema_request, BondRow};

// The native marshaller is not linked into the tests: its schema output is
// stood in for by the description it is handed, behind a two-byte tag.
fn marshal_stand_in(request: &[u8]) -> Vec<u8> {
    let mut out = vec![0xB0, 0x0D];
    out.extend_from_slice(request);
    out
}

fn run_encode(
    encoder: &mut BondEncoder,
    data: &Vec<(String, BondValue)>,
    event_name: &str,
    level: u8,
    metadata: &str,
) -> Vec<u8> {
    let entry = match encoder.create_schema_from_data(data) {
        SchemaStep::Cached { entry, .. } => entry,
        SchemaStep::Marshal { fields, request, .. } => {
            let marshaled = marshal_stand_in(&request);
            encoder.complete_schema(&fields, marshaled)
        }
    };
    let row_bytes = encoder.create_row_bytes(data, &entry);
    let row = BondRow::from_marshaled(row_bytes);
    encode_blob(entry, row, event_name, level, metadata)
}

fn sample_data() -> Vec<(String, BondValue)> {
    vec![
        ("FloatCol".to_string(), BondValue::Float(3.1415f32.to_bits())),
        ("IntCol".to_string(), BondValue::Int32(42)),
        ("StrCol".to_string(), BondValue::String("hello".to_string())),
    ]
}

#[test]
fn test_bond_encoder() {
    let mut encoder = BondEncoder::new();

    let data = sample_data();

    let metadata = "namespace=testNamespace/eventVersion=Ver1v0";
    let payload = run_encode(&mut encoder, &data, "test_event", 1, metadata);

    // Basic validation that we got something
    assert!(!payload.is_empty());
}

#[test]
fn encode_layout_is_exact() {
    let mut encoder = BondEncoder::new();
    let data = vec![("k".to_string(), BondValue::Int32(7))];
    let payload = run_encode(&mut encoder, &data, "e", 4, "m");

    let request = encode_schema_request(&[("k", 16, 1)]);
    let schema_bytes = marshal_stand_in(&request);
    let schema_id = encoder.calculate_schema_id(&[("k", 16, 1)]);

    let mut expected = Vec::new();
    expected.extend_from_slice(&1u32.to_le_bytes());
    expected.extend_from_slice(&2u32.to_le_bytes());
    expected.extend_from_slice(&2u32.to_le_bytes());
    expected.extend_from_slice(&utf8_to_utf16le_bytes("m"));
    expected.extend_from_slice(&0u16.to_le_bytes());
    expected.extend_from_slice(&schema_id.to_le_bytes());
    expected.extend_from_slice(&md5::compute(&schema_bytes).0);
    expected.extend_from_slice(&(schema_bytes.len() as u32).to_le_bytes());
    expected.extend_from_slice(&schema_bytes);
    expected.extend_from_slice(&TERMINATOR.to_le_bytes());
    expected.extend_from_slice(&2u16.to_le_bytes());
    expected.extend_from_slice(&schema_id.to_le_bytes());
    expected.push(4);
    expected.extend_from_slice(&2u16.to_le_bytes());
    expected.extend_from_slice(&[b'e', 0]);
    // the row holds the value of k, behind the Simple Protocol header
    expected.extend_from_slice(&8u32.to_le_bytes());
    expected.extend_from_slice(&[0x53, 0x50, 0x01, 0x00, 7, 0, 0, 0]);
    expected.extend_from_slice(&TERMINATOR.to_le_bytes());
    assert_eq!(payload, expected);
}

#[test]
fn schema_fields_sorted_with_ids() {
    let data = vec![
        ("StrCol".to_string(), BondValue::String("hello".to_string())),
        ("FloatCol".to_string(), BondValue::Float(0)),
        ("IntCol".to_string(), BondValue::Int32(42)),
        ("DblCol".to_string(), BondValue::Double(0)),
    ];
    let fields = schema_fields(&data);
    assert_eq!(
        fields,
        vec![("DblCol", 8, 1), ("FloatCol", 7, 2), ("IntCol", 16, 3), ("StrCol", 9, 4)]
    );
}

#[test]
fn schema_fields_byte_order() {
    // Upper case sorts before lower case; a prefix before its extensions;
    // multi-byte UTF-8 after ASCII.
    let data = vec![
        ("b".to_string(), BondValue::Int32(0)),
        ("\u{e9}".to_string(), BondValue::Int32(0)),
        ("ab".to_string(), BondValue::Int32(0)),
        ("B".to_string(), BondValue::Int32(0)),
        ("a".to_string(), BondValue::Int32(0)),
    ];
    let names: Vec<&str> = schema_fields(&data).iter().map(|f| f.0).collect();
    assert_eq!(names, vec!["B", "a", "ab", "b", "\u{e9}"]);
}

#[test]
fn schema_fields_order_independent() {
    let mut data = sample_data();
    let first = schema_fields(&data)
        .iter()
        .map(|f| (f.0.to_string(), f.1, f.2))
        .collect::<Vec<_>>();
    data.reverse();
    let second = schema_fields(&data)
        .iter()
        .map(|f| (f.0.to_string(), f.1, f.2))
        .collect::<Vec<_>>();
    assert_eq!(first, second);
}

#[test]
fn schema_fields_empty() {
    let data: Vec<(String, BondValue)> = vec![];
    assert!(schema_fields(&data).is_empty());
}

#[test]
fn str_lt_is_byte_order() {
    assert!(str_lt("", "a"));
    assert!(!str_lt("a", ""));
    assert!(!str_lt("a", "a"));
    assert!(str_lt("a", "ab"));
    assert!(str_lt("B", "a"));
    assert!(str_lt("z", "\u{e9}"));
    assert!(!str_lt("b", "a"));
}

#[test]
fn type_ids_and_row_bytes() {
    let mut buf = Vec::new();
    let f = BondValue::Float(3.1415f32.to_bits());
    assert_eq!(f.bond_type_id(), 7);
    f.write_to_buffer(&mut buf);
    assert_eq!(buf, 3.1415f32.to_le_bytes().to_vec());

    let mut buf = vec![0xFF];
    let i = BondValue::Int32(-2);
    assert_eq!(i.bond_type_id(), 16);
    i.write_to_buffer(&mut buf);
    assert_eq!(buf, vec![0xFF, 0xFE, 0xFF, 0xFF, 0xFF]);

    let mut buf = Vec::new();
    let s = BondValue::String("h\u{e9}".to_string());
    assert_eq!(s.bond_type_id(), 9);
    s.write_to_buffer(&mut buf);
    assert_eq!(buf, vec![3, 0, b'h', 0xC3, 0xA9]);

    let mut buf = Vec::new();
    let d = BondValue::Double(2.5f64.to_bits());
    assert_eq!(d.bond_type_id(), 8);
    d.write_to_buffer(&mut buf);
    assert_eq!(buf, 2.5f64.to_le_bytes().to_vec());
}

#[test]
fn cache_is_used_on_second_encoding() {
    let mut encoder = BondEncoder::new();
    let data = sample_data();
    let first_id = match encoder.create_schema_from_data(&data) {
        SchemaStep::Cached { .. } => panic!("fresh encoder has no cached schema"),
        SchemaStep::Marshal { schema_id, fields, request } => {
            assert_eq!(request, encode_schema_request(&fields));
            let entry = encoder.complete_schema(&fields, vec![1, 2, 3]);
            assert_eq!(entry.id, schema_id);
            assert_eq!(entry.schema.as_bytes(), &[1, 2, 3]);
            assert_eq!(entry.md5, md5::compute([1u8, 2, 3]).0);
            schema_id
        }
    };
    match encoder.create_schema_from_data(&data) {
        SchemaStep::Cached { schema_id, entry } => {
            assert_eq!(schema_id, first_id);
            assert_eq!(entry.id, first_id);
            assert_eq!(entry.schema.as_bytes(), &[1, 2, 3]);
            assert_eq!(entry.md5, md5::compute([1u8, 2, 3]).0);
        }
        SchemaStep::Marshal { .. } => panic!("schema should be cached"),
    }
    let looked_up = encoder.lookup_schema(first_id).unwrap();
    assert_eq!(looked_up.schema.as_bytes(), &[1, 2, 3]);
    assert!(encoder.lookup_schema(first_id.wrapping_add(1)).is_none());
}

#[test]
fn md5_of_schema_bytes() {
    let mut encoder = BondEncoder::new();
    let entry = encoder.complete_schema(&[("a", 16, 1)], b"abc".to_vec());
    assert_eq!(entry.id, encoder.calculate_schema_id(&[("a", 16, 1)]));
    assert!(encoder.lookup_schema(entry.id).is_some());
    // RFC 1321 test vector for "abc"
    assert_eq!(
        entry.md5,
        [
            0x90, 0x01, 0x50, 0x98, 0x3c, 0xd2, 0x4f, 0xb0, 0xd6, 0x96, 0x3f, 0x7d, 0x28, 0xe1,
            0x7f, 0x72
        ]
    );
}

#[test]
fn schema_id_is_stable_within_a_run() {
    let encoder = BondEncoder::new();
    let a = encoder.calculate_schema_id(&[("x", 16, 1), ("y", 9, 2)]);
    let b = encoder.calculate_schema_id(&[("x", 16, 1), ("y", 9, 2)]);
    let c = encoder.calculate_schema_id(&[("x", 16, 1), ("y", 9, 3)]);
    assert_eq!(a, b);
    assert_ne!(a, c);
}

#[test]
fn field_ordering_of_schema() {
    let encoder = BondEncoder::new();
    let schema = bond_rs::BondSchema::from_fields(&[("foo", 16, 1), ("bar", 9, 2)], vec![1]);
    assert_eq!(
        encoder.extract_field_ordering_from_schema(&schema),
        vec![("foo".to_string(), 1u16), ("bar".to_string(), 2u16)]
    );
}

#[test]
fn row_bytes_follow_field_order() {
    let mut encoder = BondEncoder::new();
    let data = vec![
        ("b".to_string(), BondValue::String("hi".to_string())),
        ("a".to_string(), BondValue::Int32(1)),
    ];
    let entry = encoder.complete_schema(&[("a", 16, 1), ("b", 9, 2)], vec![5]);
    assert_eq!(
        encoder.create_row_bytes(&data, &entry),
        vec![1, 0, 0, 0, 2, 0, 0x68, 0x69]
    );
    // fields are written by field id, and fields with no value are skipped
    let entry = encoder.complete_schema(&[("b", 9, 3), ("z", 16, 1), ("a", 16, 2)], vec![6]);
    assert_eq!(
        encoder.create_row_bytes(&data, &entry),
        vec![1, 0, 0, 0, 2, 0, 0x68, 0x69]
    );
    let entry = encoder.complete_schema(&[], vec![7]);
    assert!(encoder.create_row_bytes(&data, &entry).is_empty());
}

#[test]
fn schema_id_ignores_the_cache() {
    let mut e1 = BondEncoder::new();
    let e2 = BondEncoder::new();
    e1.complete_schema(&[("q", 9, 1)], vec![1, 2]);
    let fields = [("x", 16u8, 1u16), ("y", 9, 2)];
    assert_eq!(e1.calculate_schema_id(&fields), e2.calculate_schema_id(&fields));
}

#[test]
fn encoding_is_independent_of_entry_order_and_cache() {
    let data = sample_data();
    let mut reversed = sample_data();
    reversed.reverse();
    let mut e1 = BondEncoder::new();
    let mut e2 = BondEncoder::new();
    let a = run_encode(&mut e1, &data, "ev", 2, "meta");
    let b = run_encode(&mut e2, &reversed, "ev", 2, "meta");
    assert_eq!(a, b);
    // the second encoding on e1 hits the cache and gives the same bytes
    let c = run_encode(&mut e1, &reversed, "ev", 2, "meta");
    assert_eq!(a, c);
}

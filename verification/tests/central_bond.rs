use bond_rs::central_bond::{CentralBondBlob, CentralEventEntry, CentralSchemaEntry, TERMINATOR};
use bond_rs::utf16::utf8_to_utf16le_bytes;
use bond_rs::{encode_schema_request, BondRow, BondSchema};

//Helper to calculate MD5 hash, returns [u8;16]
fn md5_bytes(data: &[u8]) -> [u8; 16] {
    md5::compute(data).0
}

#[test]
fn test_central_bond_blob_creation() {
    // Prepare a schema
    let fields = &[
        ("foo", 16u8, 1u16), // BT_INT32
        ("bar", 9u8, 2u16),  // BT_STRING
    ];
    // The native marshaller is not linked into the tests: its output is
    // stood in for by the schema description.
    let schema_obj = BondSchema::from_fields(fields, encode_schema_request(fields));
    let schema_bytes = schema_obj.as_bytes().to_vec();
    let schema_md5 = md5_bytes(&schema_bytes);
    let schema_id = 1234u64;

    let schema = CentralSchemaEntry {
        id: schema_id,
        md5: schema_md5,
        schema: schema_obj,
    };

    // Prepare a row
    let mut row = Vec::new();
    row.extend_from_slice(&42i32.to_le_bytes());
    let s = "hello";
    row.extend_from_slice(&(s.len() as u32).to_le_bytes()); // Bond expects u32 LE for string length
    row.extend_from_slice(s.as_bytes());

    let row_obj = BondRow::from_marshaled(row);

    let event = CentralEventEntry {
        schema_id,
        level: 0, // e.g. ETW verbose
        event_name: "eventname".to_string(),
        row: row_obj,
    };

    // Metadata
    let metadata = "namespace=testNamespace/eventVersion=Ver1v0/tenant=T/role=R/roleinstance=RI";

    // Build blob
    let blob = CentralBondBlob {
        version: 1,
        format: 42,
        metadata: metadata.to_string(),
        schemas: vec![schema],
        events: vec![event],
    };

    let payload = blob.to_bytes();

    // Only assert that the payload is created and non-empty
    assert!(!payload.is_empty());
}

fn le16(v: u16) -> Vec<u8> {
    v.to_le_bytes().to_vec()
}

#[test]
fn blob_layout_is_exact() {
    let schema = BondSchema::from_fields(&[("a", 16, 1)], vec![0xAA, 0xBB]);
    let md5 = [7u8; 16];
    let blob = CentralBondBlob {
        version: 1,
        format: 2,
        metadata: "m".to_string(),
        schemas: vec![CentralSchemaEntry { id: 5, md5, schema }],
        events: vec![CentralEventEntry {
            schema_id: 5,
            level: 3,
            event_name: "ev".to_string(),
            row: BondRow::from_marshaled(vec![0x2A]),
        }],
    };
    let mut expected = Vec::new();
    expected.extend_from_slice(&1u32.to_le_bytes());
    expected.extend_from_slice(&2u32.to_le_bytes());
    expected.extend_from_slice(&2u32.to_le_bytes()); // "m" is one UTF-16 unit
    expected.extend_from_slice(&[b'm', 0]);
    // schema entry
    expected.extend_from_slice(&le16(0));
    expected.extend_from_slice(&5u64.to_le_bytes());
    expected.extend_from_slice(&md5);
    expected.extend_from_slice(&2u32.to_le_bytes());
    expected.extend_from_slice(&[0xAA, 0xBB]);
    expected.extend_from_slice(&TERMINATOR.to_le_bytes());
    // event entry
    expected.extend_from_slice(&le16(2));
    expected.extend_from_slice(&5u64.to_le_bytes());
    expected.push(3);
    expected.extend_from_slice(&le16(4));
    expected.extend_from_slice(&[b'e', 0, b'v', 0]);
    expected.extend_from_slice(&5u32.to_le_bytes());
    expected.extend_from_slice(&[0x53, 0x50, 0x01, 0x00, 0x2A]);
    expected.extend_from_slice(&TERMINATOR.to_le_bytes());
    assert_eq!(blob.to_bytes(), expected);
}

#[test]
fn empty_blob_is_header_only() {
    let blob = CentralBondBlob {
        version: 0x01020304,
        format: 0,
        metadata: String::new(),
        schemas: vec![],
        events: vec![],
    };
    assert_eq!(blob.to_bytes(), vec![4, 3, 2, 1, 0, 0, 0, 0, 0, 0, 0, 0]);
}

#[test]
fn entries_keep_their_order() {
    let mk = |id: u64| CentralSchemaEntry {
        id,
        md5: [0u8; 16],
        schema: BondSchema::from_fields(&[], vec![]),
    };
    let blob = CentralBondBlob {
        version: 1,
        format: 2,
        metadata: String::new(),
        schemas: vec![mk(1), mk(2)],
        events: vec![],
    };
    let bytes = blob.to_bytes();
    // each schema entry: 2 + 8 + 16 + 4 + 0 + 8 = 38 bytes
    assert_eq!(bytes.len(), 12 + 2 * 38);
    assert_eq!(&bytes[14..22], &1u64.to_le_bytes());
    assert_eq!(&bytes[12 + 38 + 2..12 + 38 + 10], &2u64.to_le_bytes());
    assert_eq!(&bytes[12 + 30..12 + 38], &TERMINATOR.to_le_bytes());
}

#[test]
fn utf16le_of_text() {
    assert_eq!(utf8_to_utf16le_bytes(""), Vec::<u8>::new());
    assert_eq!(utf8_to_utf16le_bytes("Ab"), vec![0x41, 0, 0x62, 0]);
    // U+20AC is one unit; U+1F600 is the surrogate pair D83D DE00.
    assert_eq!(
        utf8_to_utf16le_bytes("\u{20AC}\u{1F600}"),
        vec![0xAC, 0x20, 0x3D, 0xD8, 0x00, 0xDE]
    );
    let s = "h\u{e9}llo \u{1F600}\u{10FFFF}";
    let expected: Vec<u8> = s.encode_utf16().flat_map(|u| u.to_le_bytes()).collect();
    assert_eq!(utf8_to_utf16le_bytes(s), expected);
}

#[test]
fn utf16le_round_trips() {
    let s = "namespace=t\u{e9}st/\u{1F600}";
    let bytes = utf8_to_utf16le_bytes(s);
    assert_eq!(bytes.len() % 2, 0);
    let units: Vec<u16> = bytes.chunks(2).map(|c| u16::from_le_bytes([c[0], c[1]])).collect();
    assert_eq!(String::from_utf16(&units).unwrap(), s);
}

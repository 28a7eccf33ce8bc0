//! The central bond blob: a header, UTF-16LE metadata, then schema entries
//! (entity type 0) and event entries (entity type 2), each closed by a
//! terminator.
use vstd::prelude::*;
use crate::{BondRow, BondSchema};
use crate::utf16::{decode_utf16le, lemma_utf16le_round_trip, utf16le_bytes, utf8_to_utf16le_bytes};
use crate::wire::{
    u16_le, u32_le, u64_le, push_u16_le, push_u32_le, push_u64_le, append_bytes, u16_at, u64_at,
    lemma_u16_le_read, lemma_u64_le_read,
};

verus! {

/// Schema entry for central blob
pub struct CentralSchemaEntry {
    pub id: u64,
    pub md5: [u8; 16],
    pub schema: BondSchema,
}

/// Event/row entry for central blob
pub struct CentralEventEntry {
    pub schema_id: u64,
    pub level: u8,
    pub event_name: String,
    pub row: BondRow,
}

/// A whole blob: header fields, metadata text, schemas and events.
pub struct CentralBondBlob {
    pub version: u32,
    pub format: u32,
    pub metadata: String,
    pub schemas: Vec<CentralSchemaEntry>,
    pub events: Vec<CentralEventEntry>,
}

/// Closes every schema and event entry.
pub const TERMINATOR: u64 = 0xdeadc0dedeadc0de;

/// The Simple Protocol header put in front of every row.
pub open spec fn simple_protocol_header() -> Seq<u8> {
    seq![0x53u8, 0x50u8, 0x01u8, 0x00u8]
}

/// A schema entry: entity type 0, schema id, MD5, the length of the schema
/// (four bytes, truncated), the schema, the terminator.
pub open spec fn schema_entry_bytes(e: CentralSchemaEntry) -> Seq<u8> {
    let schema = e.schema.spec_bytes();
    u16_le(0) + u64_le(e.id) + e.md5@ + u32_le(schema.len() as u32) + schema + u64_le(TERMINATOR)
}

/// An event entry: entity type 2, schema id, level, the UTF-16LE event name
/// after its byte length (two bytes, truncated), the row behind the Simple
/// Protocol header after the byte length of both (four bytes, truncated),
/// the terminator.
pub open spec fn event_bytes(schema_id: u64, level: u8, event_name: Seq<char>, row: Seq<u8>) -> Seq<
    u8,
> {
    let name = utf16le_bytes(event_name);
    let framed = simple_protocol_header() + row;
    u16_le(2) + u64_le(schema_id) + seq![level] + u16_le(name.len() as u16) + name + u32_le(
        framed.len() as u32,
    ) + framed + u64_le(TERMINATOR)
}

/// The bytes of an event entry.
pub open spec fn event_entry_bytes(e: CentralEventEntry) -> Seq<u8> {
    event_bytes(e.schema_id, e.level, e.event_name@, e.row.spec_bytes())
}

/// The schema entries, one after the other.
pub open spec fn schemas_bytes(s: Seq<CentralSchemaEntry>) -> Seq<u8>
    decreases s.len(),
{
    if s.len() == 0 {
        Seq::empty()
    } else {
        schemas_bytes(s.drop_last()) + schema_entry_bytes(s.last())
    }
}

/// The event entries, one after the other.
pub open spec fn events_bytes(s: Seq<CentralEventEntry>) -> Seq<u8>
    decreases s.len(),
{
    if s.len() == 0 {
        Seq::empty()
    } else {
        events_bytes(s.drop_last()) + event_entry_bytes(s.last())
    }
}

/// The header: version, format, the byte length of the UTF-16LE metadata
/// (four bytes, truncated) and the metadata.
pub open spec fn header(version: u32, format: u32, metadata: Seq<char>) -> Seq<u8> {
    let meta = utf16le_bytes(metadata);
    u32_le(version) + u32_le(format) + u32_le(meta.len() as u32) + meta
}

/// The header of a blob.
pub open spec fn header_bytes(b: CentralBondBlob) -> Seq<u8> {
    header(b.version, b.format, b.metadata@)
}

/// The whole blob: header, then all schema entries, then all event entries.
pub open spec fn blob_bytes(b: CentralBondBlob) -> Seq<u8> {
    header_bytes(b) + schemas_bytes(b.schemas@) + events_bytes(b.events@)
}

/// The number stored little-endian in the four bytes at `i`.
pub open spec fn u32_at(b: Seq<u8>, i: int) -> int {
    b[i] + 256 * b[i + 1] + 65536 * b[i + 2] + 16777216 * b[i + 3]
}

/// The four bytes of `u32_le(x)` read back as `x`.
pub proof fn lemma_u32_le_value(x: u32)
    ensures
        u32_le(x).len() == 4,
        u32_at(u32_le(x), 0) == x,
{
    let b0 = x as u8;
    let b1 = (x >> 8u32) as u8;
    let b2 = (x >> 16u32) as u8;
    let b3 = (x >> 24u32) as u8;
    assert(b0 as u32 + 256 * (b1 as u32) + 65536 * (b2 as u32) + 16777216 * (b3 as u32) == x)
        by (bit_vector)
        requires
            b0 == x as u8,
            b1 == (x >> 8u32) as u8,
            b2 == (x >> 16u32) as u8,
            b3 == (x >> 24u32) as u8,
    ;
}

/// The header can be read back from a blob: the version in bytes 0..4 and
/// the format in 4..8, little-endian.
pub proof fn lemma_header_recoverable(b: CentralBondBlob)
    ensures
        u32_at(blob_bytes(b), 0) == b.version,
        u32_at(blob_bytes(b), 4) == b.format,
{
    let bytes = blob_bytes(b);
    lemma_u32_le_value(b.version);
    lemma_u32_le_value(b.format);
    assert(bytes.subrange(0, 4) =~= u32_le(b.version));
    assert(bytes.subrange(4, 8) =~= u32_le(b.format));
    assert(u32_at(bytes, 0) == u32_at(bytes.subrange(0, 4), 0));
    assert(u32_at(bytes, 4) == u32_at(bytes.subrange(4, 8), 0));
}

/// The metadata can be read back from a blob: bytes 8..12 hold the length
/// of its UTF-16LE form, and that many bytes from byte 12 on decode to the
/// metadata text (for metadata whose UTF-16LE form is shorter than 2^32
/// bytes; a longer one has its stored length truncated).
pub proof fn lemma_metadata_recoverable(b: CentralBondBlob)
    requires
        utf16le_bytes(b.metadata@).len() <= u32::MAX,
    ensures
        ({
            let bytes = blob_bytes(b);
            let n = u32_at(bytes, 8);
            &&& n == utf16le_bytes(b.metadata@).len()
            &&& 12 + n <= bytes.len()
            &&& decode_utf16le(bytes.subrange(12, 12 + n)) == Some(b.metadata@)
        }),
{
    let meta = utf16le_bytes(b.metadata@);
    let len = meta.len() as u32;
    let bytes = blob_bytes(b);
    lemma_u32_le_value(len);
    lemma_utf16le_round_trip(b.metadata@);
    assert(bytes.subrange(8, 12) =~= u32_le(len));
    assert(u32_at(bytes, 8) == u32_at(u32_le(len), 0));
    assert(bytes.subrange(12, 12 + meta.len() as int) =~= meta);
}

/// The event part of a blob holds every event, in order: appending an event
/// appends its entry.
pub proof fn lemma_events_bytes_push(s: Seq<CentralEventEntry>, e: CentralEventEntry)
    ensures
        events_bytes(s.push(e)) == events_bytes(s) + event_entry_bytes(e),
{
    assert(s.push(e).drop_last() =~= s);
}

/// The entries of two runs of events, one after the other, are the entries
/// of the first run followed by those of the second.
pub proof fn lemma_events_bytes_concat(a: Seq<CentralEventEntry>, b: Seq<CentralEventEntry>)
    ensures
        events_bytes(a + b) == events_bytes(a) + events_bytes(b),
    decreases b.len(),
{
    if b.len() == 0 {
        assert(a + b =~= a);
        assert(events_bytes(a) + events_bytes(b) =~= events_bytes(a));
    } else {
        lemma_events_bytes_concat(a, b.drop_last());
        assert((a + b).drop_last() =~= a + b.drop_last());
        assert((a + b).last() == b.last());
        assert(events_bytes(a + b) =~= events_bytes(a) + events_bytes(b));
    }
}

/// Every event's entry stands in the event part, after the entries of the
/// events before it and before the entries of the events after it.
pub proof fn lemma_events_bytes_split(s: Seq<CentralEventEntry>, i: int)
    requires
        0 <= i < s.len(),
    ensures
        events_bytes(s) == events_bytes(s.take(i)) + event_entry_bytes(s[i]) + events_bytes(
            s.skip(i + 1),
        ),
{
    lemma_events_bytes_concat(s.take(i + 1), s.skip(i + 1));
    assert(s.take(i + 1) + s.skip(i + 1) =~= s);
    lemma_events_bytes_push(s.take(i), s[i]);
    assert(s.take(i).push(s[i]) =~= s.take(i + 1));
}

/// The schema part of a blob holds every schema entry, in order: appending a
/// schema appends its entry.
pub proof fn lemma_schemas_bytes_push(s: Seq<CentralSchemaEntry>, e: CentralSchemaEntry)
    ensures
        schemas_bytes(s.push(e)) == schemas_bytes(s) + schema_entry_bytes(e),
{
    assert(s.push(e).drop_last() =~= s);
}

/// The entries of two runs of schemas, one after the other, are the entries
/// of the first run followed by those of the second.
pub proof fn lemma_schemas_bytes_concat(a: Seq<CentralSchemaEntry>, b: Seq<CentralSchemaEntry>)
    ensures
        schemas_bytes(a + b) == schemas_bytes(a) + schemas_bytes(b),
    decreases b.len(),
{
    if b.len() == 0 {
        assert(a + b =~= a);
        assert(schemas_bytes(a) + schemas_bytes(b) =~= schemas_bytes(a));
    } else {
        lemma_schemas_bytes_concat(a, b.drop_last());
        assert((a + b).drop_last() =~= a + b.drop_last());
        assert((a + b).last() == b.last());
        assert(schemas_bytes(a + b) =~= schemas_bytes(a) + schemas_bytes(b));
    }
}

/// Every schema's entry stands in the schema part, after the entries of the
/// schemas before it and before the entries of the schemas after it.
pub proof fn lemma_schemas_bytes_split(s: Seq<CentralSchemaEntry>, i: int)
    requires
        0 <= i < s.len(),
    ensures
        schemas_bytes(s) == schemas_bytes(s.take(i)) + schema_entry_bytes(s[i]) + schemas_bytes(
            s.skip(i + 1),
        ),
{
    lemma_schemas_bytes_concat(s.take(i + 1), s.skip(i + 1));
    assert(s.take(i + 1) + s.skip(i + 1) =~= s);
    lemma_schemas_bytes_push(s.take(i), s[i]);
    assert(s.take(i).push(s[i]) =~= s.take(i + 1));
}

/// The blob holds its header, then every schema entry in order, then every
/// event entry in order; the header is twelve bytes plus the UTF-16LE
/// metadata, so event `i` starts after the header, all schema entries and
/// the entries of events `0..i`.
pub proof fn lemma_blob_holds_every_event(b: CentralBondBlob, i: int)
    requires
        0 <= i < b.events@.len(),
    ensures
        header_bytes(b).len() == 12 + utf16le_bytes(b.metadata@).len(),
        blob_bytes(b) == header_bytes(b) + schemas_bytes(b.schemas@) + events_bytes(
            b.events@.take(i),
        ) + event_entry_bytes(b.events@[i]) + events_bytes(b.events@.skip(i + 1)),
{
    lemma_events_bytes_split(b.events@, i);
    assert(blob_bytes(b) =~= header_bytes(b) + schemas_bytes(b.schemas@) + events_bytes(
        b.events@.take(i),
    ) + event_entry_bytes(b.events@[i]) + events_bytes(b.events@.skip(i + 1)));
}

/// An event entry can be read back: entity type 2 in bytes 0..2, the schema
/// id in 2..10, the level at 10, the byte length `n` of the name in 11..13,
/// then `n` bytes that decode to the event name, the length of the framed
/// row, the Simple Protocol header, the row itself and the terminator (for
/// names whose UTF-16LE form is shorter than 2^16 bytes and rows shorter
/// than 2^32 - 4 bytes; longer ones have their stored length truncated).
pub proof fn lemma_event_entry_recoverable(
    schema_id: u64,
    level: u8,
    event_name: Seq<char>,
    row: Seq<u8>,
)
    requires
        utf16le_bytes(event_name).len() <= u16::MAX,
        row.len() + 4 <= u32::MAX,
    ensures
        ({
            let b = event_bytes(schema_id, level, event_name, row);
            let n = u16_at(b, 11);
            let r = row.len() as int;
            &&& n == utf16le_bytes(event_name).len()
            &&& b.len() == 29 + n + r
            &&& u16_at(b, 0) == 2
            &&& u64_at(b, 2) == schema_id
            &&& b[10] == level
            &&& decode_utf16le(b.subrange(13, 13 + n)) == Some(event_name)
            &&& u32_at(b, 13 + n) == r + 4
            &&& b.subrange(17 + n, 21 + n) == simple_protocol_header()
            &&& b.subrange(21 + n, 21 + n + r) == row
            &&& u64_at(b, 21 + n + r) == TERMINATOR
        }),
{
    let b = event_bytes(schema_id, level, event_name, row);
    let name = utf16le_bytes(event_name);
    let n = name.len() as int;
    let r = row.len() as int;
    let framed = simple_protocol_header() + row;
    lemma_u16_le_read(2);
    lemma_u16_le_read(n as u16);
    lemma_u64_le_read(schema_id);
    lemma_u32_le_value(framed.len() as u32);
    lemma_u64_le_read(TERMINATOR);
    lemma_utf16le_round_trip(event_name);
    assert(b.subrange(0, 2) =~= u16_le(2));
    assert(b.subrange(2, 10) =~= u64_le(schema_id));
    assert(b.subrange(11, 13) =~= u16_le(n as u16));
    assert(b.subrange(13, 13 + n) =~= name);
    assert(b.subrange(13 + n, 17 + n) =~= u32_le(framed.len() as u32));
    assert(b.subrange(17 + n, 21 + n) =~= simple_protocol_header());
    assert(b.subrange(21 + n, 21 + n + r) =~= row);
    assert(b.subrange(21 + n + r, 29 + n + r) =~= u64_le(TERMINATOR));
    assert(u16_at(b, 0) == u16_at(b.subrange(0, 2), 0));
    assert(u64_at(b, 2) == u64_at(b.subrange(2, 10), 0));
    assert(u16_at(b, 11) == u16_at(b.subrange(11, 13), 0));
    assert(u32_at(b, 13 + n) == u32_at(b.subrange(13 + n, 17 + n), 0));
    assert(u64_at(b, 21 + n + r) == u64_at(b.subrange(21 + n + r, 29 + n + r), 0));
}

/// A schema entry can be read back: entity type 0 in bytes 0..2, the schema
/// id in 2..10, the MD5 in 10..26, the byte length `n` of the schema in
/// 26..30, then the schema and the terminator (for schemas shorter than
/// 2^32 bytes; longer ones have their stored length truncated).
pub proof fn lemma_schema_entry_recoverable(e: CentralSchemaEntry)
    requires
        e.schema.spec_bytes().len() <= u32::MAX,
    ensures
        ({
            let b = schema_entry_bytes(e);
            let n = u32_at(b, 26);
            &&& n == e.schema.spec_bytes().len()
            &&& b.len() == 38 + n
            &&& u16_at(b, 0) == 0
            &&& u64_at(b, 2) == e.id
            &&& b.subrange(10, 26) == e.md5@
            &&& b.subrange(30, 30 + n) == e.schema.spec_bytes()
            &&& u64_at(b, 30 + n) == TERMINATOR
        }),
{
    let b = schema_entry_bytes(e);
    let sb = e.schema.spec_bytes();
    let n = sb.len() as int;
    lemma_u16_le_read(0);
    lemma_u64_le_read(e.id);
    lemma_u32_le_value(n as u32);
    lemma_u64_le_read(TERMINATOR);
    assert(e.md5@.len() == 16);
    assert(b.subrange(0, 2) =~= u16_le(0));
    assert(b.subrange(2, 10) =~= u64_le(e.id));
    assert(b.subrange(10, 26) =~= e.md5@);
    assert(b.subrange(26, 30) =~= u32_le(n as u32));
    assert(b.subrange(30, 30 + n) =~= sb);
    assert(b.subrange(30 + n, 38 + n) =~= u64_le(TERMINATOR));
    assert(u16_at(b, 0) == u16_at(b.subrange(0, 2), 0));
    assert(u64_at(b, 2) == u64_at(b.subrange(2, 10), 0));
    assert(u32_at(b, 26) == u32_at(b.subrange(26, 30), 0));
    assert(u64_at(b, 30 + n) == u64_at(b.subrange(30 + n, 38 + n), 0));
}

fn append_schema_entry(buf: &mut Vec<u8>, schema: &CentralSchemaEntry)
    ensures
        final(buf)@ == old(buf)@ + schema_entry_bytes(*schema),
{
    push_u16_le(buf, 0);
    push_u64_le(buf, schema.id);
    append_bytes(buf, schema.md5.as_slice());
    let schema_bytes = schema.schema.as_bytes();
    push_u32_le(buf, schema_bytes.len() as u32);
    append_bytes(buf, schema_bytes);
    push_u64_le(buf, TERMINATOR);
    assert(buf@ =~= old(buf)@ + schema_entry_bytes(*schema));
}

fn append_event_entry(buf: &mut Vec<u8>, event: &CentralEventEntry)
    ensures
        final(buf)@ == old(buf)@ + event_entry_bytes(*event),
{
    push_u16_le(buf, 2);
    push_u64_le(buf, event.schema_id);
    buf.push(event.level);
    let evname_utf16 = utf8_to_utf16le_bytes(event.event_name.as_str());
    push_u16_le(buf, evname_utf16.len() as u16);
    append_bytes(buf, evname_utf16.as_slice());
    let row_bytes = event.row.as_bytes();
    let mut modified_row: Vec<u8> = Vec::new();
    modified_row.push(0x53);
    modified_row.push(0x50);
    modified_row.push(0x01);
    modified_row.push(0x00);
    append_bytes(&mut modified_row, row_bytes);
    assert(modified_row@ =~= simple_protocol_header() + event.row.spec_bytes());
    push_u32_le(buf, modified_row.len() as u32);
    append_bytes(buf, modified_row.as_slice());
    push_u64_le(buf, TERMINATOR);
    assert(buf@ =~= old(buf)@ + event_entry_bytes(*event));
}

impl CentralBondBlob {
    /// Serializes the blob: header and metadata, every schema entry in
    /// order, then every event entry in order.
    pub fn to_bytes(&self) -> (r: Vec<u8>)
        ensures
            r@ == blob_bytes(*self),
    {
        let mut buf: Vec<u8> = Vec::new();
        push_u32_le(&mut buf, self.version);
        push_u32_le(&mut buf, self.format);
        let metadata_utf16 = utf8_to_utf16le_bytes(self.metadata.as_str());
        push_u32_le(&mut buf, metadata_utf16.len() as u32);
        append_bytes(&mut buf, metadata_utf16.as_slice());
        assert(buf@ =~= header_bytes(*self));

        let n = self.schemas.len();
        let mut i: usize = 0;
        while i < n
            invariant
                n == self.schemas@.len(),
                i <= n,
                buf@ == header_bytes(*self) + schemas_bytes(self.schemas@.take(i as int)),
            decreases n - i,
        {
            append_schema_entry(&mut buf, &self.schemas[i]);
            assert(self.schemas@.take(i + 1).drop_last() =~= self.schemas@.take(i as int));
            i = i + 1;
        }
        assert(self.schemas@.take(n as int) =~= self.schemas@);

        let m = self.events.len();
        let mut j: usize = 0;
        while j < m
            invariant
                n == self.schemas@.len(),
                m == self.events@.len(),
                j <= m,
                buf@ == header_bytes(*self) + schemas_bytes(self.schemas@) + events_bytes(
                    self.events@.take(j as int),
                ),
            decreases m - j,
        {
            append_event_entry(&mut buf, &self.events[j]);
            assert(self.events@.take(j + 1).drop_last() =~= self.events@.take(j as int));
            j = j + 1;
        }
        assert(self.events@.take(m as int) =~= self.events@);
        buf
    }
}

} // verus!

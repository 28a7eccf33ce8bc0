//! Encoding of Bond schemas, rows and the "central bond" blob layout.
//!
//! A Bond schema is described by its fields (name, Bond type id, field id).
//! The native Bond marshaller turns that description into the schema's
//! binary form, and a row's field values into the row's binary form; the
//! values that stand here are the results it handed back.
pub mod central_bond;
pub mod encoder;
pub mod utf16;
pub mod wire;

use vstd::prelude::*;
use crate::wire::{u16_le, push_u16_le, append_bytes, lemma_u16_le_read};

verus! {

/// A field as the schema stores it: its name, Bond type id and field id.
pub open spec fn owned_field_view(f: (String, u8, u16)) -> (Seq<char>, u8, u16) {
    (f.0@, f.1, f.2)
}

/// A field as callers describe it: its name, Bond type id and field id.
pub open spec fn field_view(f: (&str, u8, u16)) -> (Seq<char>, u8, u16) {
    (f.0@, f.1, f.2)
}

/// The bytes that describe one field to the marshaller: the UTF-8 length of
/// the name (one byte, truncated), the name, the type id, the field id (LE).
pub open spec fn field_request(f: (Seq<char>, u8, u16)) -> Seq<u8> {
    let name = vstd::utf8::encode_utf8(f.0);
    seq![name.len() as u8] + name + seq![f.1] + u16_le(f.2)
}

/// The descriptions of a list of fields, one after the other.
pub open spec fn fields_request(fields: Seq<(Seq<char>, u8, u16)>) -> Seq<u8>
    decreases fields.len(),
{
    if fields.len() == 0 {
        Seq::empty()
    } else {
        fields_request(fields.drop_last()) + field_request(fields.last())
    }
}

/// The schema description handed to the marshaller: the field count
/// (two bytes LE, truncated) followed by the fields.
pub open spec fn schema_request(fields: Seq<(Seq<char>, u8, u16)>) -> Seq<u8> {
    u16_le(fields.len() as u16) + fields_request(fields)
}

/// Reads `count` field descriptions from `b`, which must hold exactly
/// those: each is a name length byte, that many name bytes, a type id and a
/// little-endian field id.
pub open spec fn parse_fields(b: Seq<u8>, count: nat) -> Option<Seq<(Seq<u8>, u8, u16)>>
    decreases count,
{
    if count == 0 {
        if b.len() == 0 {
            Some(Seq::empty())
        } else {
            None
        }
    } else if b.len() == 0 {
        None
    } else {
        let n = b[0] as int;
        if b.len() < n + 4 {
            None
        } else {
            let f = (b.subrange(1, 1 + n), b[1 + n], (b[2 + n] + 256 * b[3 + n]) as u16);
            match parse_fields(b.skip(n + 4), (count - 1) as nat) {
                Some(rest) => Some(seq![f] + rest),
                None => None,
            }
        }
    }
}

/// Reads a schema description: the field count in two bytes, little-endian,
/// then that many field descriptions and nothing more.
pub open spec fn parse_schema_request(b: Seq<u8>) -> Option<Seq<(Seq<u8>, u8, u16)>> {
    if b.len() < 2 {
        None
    } else {
        parse_fields(b.skip(2), (b[0] + 256 * b[1]) as nat)
    }
}

/// A field with its name as UTF-8 bytes.
pub open spec fn field_utf8(f: (Seq<char>, u8, u16)) -> (Seq<u8>, u8, u16) {
    (vstd::utf8::encode_utf8(f.0), f.1, f.2)
}

proof fn lemma_fields_request_concat(
    a: Seq<(Seq<char>, u8, u16)>,
    b: Seq<(Seq<char>, u8, u16)>,
)
    ensures
        fields_request(a + b) == fields_request(a) + fields_request(b),
    decreases b.len(),
{
    if b.len() == 0 {
        assert(a + b =~= a);
        assert(fields_request(a) + fields_request(b) =~= fields_request(a));
    } else {
        lemma_fields_request_concat(a, b.drop_last());
        assert((a + b).drop_last() =~= a + b.drop_last());
        assert((a + b).last() == b.last());
        assert(fields_request(a + b) =~= fields_request(a) + fields_request(b));
    }
}

proof fn lemma_parse_fields_request(fields: Seq<(Seq<char>, u8, u16)>)
    requires
        forall|k: int|
            0 <= k < fields.len() ==> vstd::utf8::encode_utf8((#[trigger] fields[k]).0).len()
                <= u8::MAX,
    ensures
        parse_fields(fields_request(fields), fields.len()) == Some(
            fields.map_values(|f: (Seq<char>, u8, u16)| field_utf8(f)),
        ),
    decreases fields.len(),
{
    let want = fields.map_values(|f: (Seq<char>, u8, u16)| field_utf8(f));
    if fields.len() == 0 {
        assert(want =~= Seq::<(Seq<u8>, u8, u16)>::empty());
    } else {
        let f0 = fields[0];
        let rest = fields.drop_first();
        assert forall|k: int|
            0 <= k < rest.len() implies vstd::utf8::encode_utf8((#[trigger] rest[k]).0).len()
            <= u8::MAX by {
            assert(rest[k] == fields[k + 1]);
        }
        lemma_parse_fields_request(rest);
        lemma_fields_request_concat(seq![f0], rest);
        assert(seq![f0] + rest =~= fields);
        assert(seq![f0].drop_last() =~= Seq::<(Seq<char>, u8, u16)>::empty());
        assert(fields_request(Seq::<(Seq<char>, u8, u16)>::empty()) =~= Seq::<u8>::empty());
        assert(seq![f0].last() == f0);
        assert(fields_request(seq![f0]) == fields_request(seq![f0].drop_last()) + field_request(
            seq![f0].last(),
        ));
        assert(fields_request(seq![f0]) =~= field_request(f0));
        let b = fields_request(fields);
        let name = vstd::utf8::encode_utf8(f0.0);
        let n = name.len() as int;
        let fr = field_request(f0);
        lemma_u16_le_read(f0.2);
        assert(fr.len() == n + 4);
        assert(b == fr + fields_request(rest));
        assert(b[0] == n);
        assert(b.subrange(1, 1 + n) =~= name);
        assert(b[1 + n] == f0.1);
        assert(b[2 + n] == u16_le(f0.2)[0]);
        assert(b[3 + n] == u16_le(f0.2)[1]);
        assert(b.skip(n + 4) =~= fields_request(rest));
        assert(want =~= seq![field_utf8(f0)] + rest.map_values(
            |f: (Seq<char>, u8, u16)| field_utf8(f),
        ));
    }
}

/// The schema description carries every field verbatim: read back, it
/// gives the field list, each name as its UTF-8 bytes, which decode to the
/// name (for fewer than 2^16 fields, each name shorter than 2^8 bytes;
/// longer ones have their stored lengths truncated).
pub proof fn lemma_schema_request_parses_back(fields: Seq<(Seq<char>, u8, u16)>)
    requires
        fields.len() <= u16::MAX,
        forall|k: int|
            0 <= k < fields.len() ==> vstd::utf8::encode_utf8((#[trigger] fields[k]).0).len()
                <= u8::MAX,
    ensures
        parse_schema_request(schema_request(fields)) == Some(
            fields.map_values(|f: (Seq<char>, u8, u16)| field_utf8(f)),
        ),
        forall|k: int|
            0 <= k < fields.len() ==> vstd::utf8::decode_utf8(
                field_utf8(#[trigger] fields[k]).0,
            ) == fields[k].0,
{
    broadcast use vstd::utf8::encode_utf8_decode_utf8;

    let b = schema_request(fields);
    lemma_u16_le_read(fields.len() as u16);
    assert(b.skip(2) =~= fields_request(fields));
    lemma_parse_fields_request(fields);
    assert forall|k: int| 0 <= k < fields.len() implies vstd::utf8::decode_utf8(
        field_utf8(#[trigger] fields[k]).0,
    ) == fields[k].0 by {
        assert(vstd::utf8::decode_utf8(vstd::utf8::encode_utf8(fields[k].0)) == fields[k].0);
    }
}

/// Builds the schema description for `fields`.
pub fn encode_schema_request(fields: &[(&str, u8, u16)]) -> (r: Vec<u8>)
    ensures
        r@ == schema_request(fields@.map_values(|f: (&str, u8, u16)| field_view(f))),
{
    let ghost model = fields@.map_values(|f: (&str, u8, u16)| field_view(f));
    let mut buf: Vec<u8> = Vec::new();
    push_u16_le(&mut buf, fields.len() as u16);
    let n = fields.len();
    let mut i: usize = 0;
    while i < n
        invariant
            n == fields@.len(),
            model == fields@.map_values(|f: (&str, u8, u16)| field_view(f)),
            i <= n,
            buf@ == u16_le(n as u16) + fields_request(model.take(i as int)),
        decreases n - i,
    {
        let (name, typ, id) = fields[i];
        let name_bytes = name.as_bytes();
        buf.push(name_bytes.len() as u8);
        append_bytes(&mut buf, name_bytes);
        buf.push(typ);
        push_u16_le(&mut buf, id);
        assert(model.take(i + 1).drop_last() =~= model.take(i as int));
        assert(model.take(i + 1).last() == field_view(fields@[i as int]));
        i = i + 1;
    }
    assert(model.take(n as int) =~= model);
    buf
}

/// A Bond schema: the fields it was built from and the binary form that
/// the marshaller produced for them.
pub struct BondSchema {
    fields: Vec<(String, u8, u16)>,
    schema_bytes: Vec<u8>,
}

/// A Bond row in the binary form that the marshaller produced for it.
pub struct BondRow {
    bytes: Vec<u8>,
}

impl BondSchema {
    /// The fields, in the order the schema was built from.
    pub closed spec fn spec_fields(&self) -> Seq<(Seq<char>, u8, u16)> {
        self.fields@.map_values(|f: (String, u8, u16)| owned_field_view(f))
    }

    /// The binary form of the schema.
    pub closed spec fn spec_bytes(&self) -> Seq<u8> {
        self.schema_bytes@
    }

    /// Builds the schema for `fields`, whose binary form the marshaller
    /// produced as `marshaled` from `encode_schema_request(fields)`.
    pub fn from_fields(fields: &[(&str, u8, u16)], marshaled: Vec<u8>) -> (r: Self)
        ensures
            r.spec_fields() == fields@.map_values(|f: (&str, u8, u16)| field_view(f)),
            r.spec_bytes() == marshaled@,
    {
        let ghost model = fields@.map_values(|f: (&str, u8, u16)| field_view(f));
        let mut owned: Vec<(String, u8, u16)> = Vec::new();
        let n = fields.len();
        let mut i: usize = 0;
        while i < n
            invariant
                n == fields@.len(),
                model == fields@.map_values(|f: (&str, u8, u16)| field_view(f)),
                i <= n,
                owned@.len() == i,
                forall|j: int| 0 <= j < i ==> #[trigger] owned_field_view(owned@[j]) == model[j],
            decreases n - i,
        {
            let (name, typ, id) = fields[i];
            owned.push((name.to_owned(), typ, id));
            i = i + 1;
        }
        let r = BondSchema { fields: owned, schema_bytes: marshaled };
        assert(r.spec_fields() =~= model);
        r
    }

    /// The binary form of the schema.
    pub fn as_bytes(&self) -> (r: &[u8])
        ensures
            r@ == self.spec_bytes(),
    {
        self.schema_bytes.as_slice()
    }

    /// The description of this schema's fields that the marshaller reads.
    pub fn request_bytes(&self) -> (r: Vec<u8>)
        ensures
            r@ == schema_request(self.spec_fields()),
    {
        let mut borrowed: Vec<(&str, u8, u16)> = Vec::new();
        let n = self.fields.len();
        let mut i: usize = 0;
        while i < n
            invariant
                n == self.fields@.len(),
                i <= n,
                borrowed@.len() == i,
                forall|j: int|
                    0 <= j < i ==> #[trigger] field_view(borrowed@[j]) == owned_field_view(
                        self.fields@[j],
                    ),
            decreases n - i,
        {
            let f = &self.fields[i];
            borrowed.push((f.0.as_str(), f.1, f.2));
            i = i + 1;
        }
        let r = encode_schema_request(borrowed.as_slice());
        assert(borrowed@.map_values(|f: (&str, u8, u16)| field_view(f)) =~= self.spec_fields());
        r
    }

    /// The name and field id of every field, in the schema's field order.
    pub fn field_names_and_ids(&self) -> (r: Vec<(String, u16)>)
        ensures
            r@.len() == self.spec_fields().len(),
            forall|j: int|
                0 <= j < r@.len() ==> (#[trigger] r@[j]).0@ == self.spec_fields()[j].0 && r@[j].1
                    == self.spec_fields()[j].2,
    {
        let mut r: Vec<(String, u16)> = Vec::new();
        let n = self.fields.len();
        let mut i: usize = 0;
        while i < n
            invariant
                n == self.fields@.len(),
                i <= n,
                r@.len() == i,
                forall|j: int|
                    0 <= j < i ==> (#[trigger] r@[j]).0@ == self.fields@[j].0@ && r@[j].1
                        == self.fields@[j].2,
            decreases n - i,
        {
            let f = &self.fields[i];
            r.push((f.0.clone(), f.2));
            i = i + 1;
        }
        r
    }

    /// A copy with the same fields and the same binary form.
    pub fn duplicate(&self) -> (r: Self)
        ensures
            r.spec_fields() == self.spec_fields(),
            r.spec_bytes() == self.spec_bytes(),
    {
        let mut fields: Vec<(String, u8, u16)> = Vec::new();
        let n = self.fields.len();
        let mut i: usize = 0;
        while i < n
            invariant
                n == self.fields@.len(),
                i <= n,
                fields@.len() == i,
                forall|j: int|
                    0 <= j < i ==> #[trigger] owned_field_view(fields@[j]) == owned_field_view(
                        self.fields@[j],
                    ),
            decreases n - i,
        {
            let f = &self.fields[i];
            fields.push((f.0.clone(), f.1, f.2));
            i = i + 1;
        }
        let mut bytes: Vec<u8> = Vec::new();
        append_bytes(&mut bytes, self.schema_bytes.as_slice());
        let r = BondSchema { fields, schema_bytes: bytes };
        assert(r.spec_fields() =~= self.spec_fields());
        assert(r.spec_bytes() =~= self.spec_bytes());
        r
    }
}

impl Clone for BondSchema {
    /// A copy with the same fields and the same binary form.
    fn clone(&self) -> (r: Self)
        ensures
            r.spec_fields() == self.spec_fields(),
            r.spec_bytes() == self.spec_bytes(),
    {
        self.duplicate()
    }
}

impl BondRow {
    /// The binary form of the row.
    pub closed spec fn spec_bytes(&self) -> Seq<u8> {
        self.bytes@
    }

    /// The row whose binary form the marshaller produced as `marshaled`.
    pub fn from_marshaled(marshaled: Vec<u8>) -> (r: Self)
        ensures
            r.spec_bytes() == marshaled@,
    {
        BondRow { bytes: marshaled }
    }

    /// The binary form of the row.
    pub fn as_bytes(&self) -> (r: &[u8])
        ensures
            r@ == self.spec_bytes(),
    {
        self.bytes.as_slice()
    }
}

} // verus!

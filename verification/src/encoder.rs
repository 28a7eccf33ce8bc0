//! A Bond encoder that turns named values into a central bond blob, with a
//! cache of the schemas it has seen.
use std::collections::hash_map::DefaultHasher;
use std::collections::HashMap;
use std::hash::{Hash, Hasher};
use vstd::prelude::*;
use vstd::utf8::encode_utf8;
use crate::{BondRow, BondSchema, field_view, schema_request};
use crate::central_bond::{
    CentralBondBlob, CentralEventEntry, CentralSchemaEntry, header, schema_entry_bytes, event_bytes,
    u32_at, lemma_u32_le_value,
};
use crate::wire::{
    u16_le, u32_le, u64_le, push_u16_le, push_u32_le, push_u64_le, append_bytes, u16_at, u64_at,
    lemma_u16_le_read, lemma_u64_le_read,
};

verus! {

/// Supported value types for the Bond encoder.
///
/// Floating-point values are held by their IEEE-754 bit patterns
/// (`f32::to_bits`, `f64::to_bits`): their little-endian bytes are the
/// bytes of the value.
pub enum BondValue {
    Float(u32),
    Int32(i32),
    String(String),
    Double(u64),
}

impl BondValue {
    /// The Bond type id of the value's type.
    pub open spec fn spec_type_id(&self) -> u8 {
        match self {
            BondValue::Float(_) => 7,
            BondValue::Int32(_) => 16,
            BondValue::String(_) => 9,
            BondValue::Double(_) => 8,
        }
    }

    /// The bytes that stand for the value in a row: the little-endian bytes
    /// of a number; for a string, its UTF-8 length (two bytes, truncated)
    /// followed by its UTF-8 bytes.
    pub open spec fn spec_row_bytes(&self) -> Seq<u8> {
        match self {
            BondValue::Float(v) => u32_le(*v),
            BondValue::Int32(v) => u32_le(*v as u32),
            BondValue::String(v) => {
                let b = encode_utf8(v@);
                u16_le(b.len() as u16) + b
            },
            BondValue::Double(v) => u64_le(*v),
        }
    }

    /// Get the Bond type ID for this value
    pub fn bond_type_id(&self) -> (r: u8)
        ensures
            r == self.spec_type_id(),
    {
        match self {
            BondValue::Float(_) => 7,
            BondValue::Int32(_) => 16,
            BondValue::String(_) => 9,
            BondValue::Double(_) => 8,
        }
    }

    /// Write the value bytes to a buffer
    pub fn write_to_buffer(&self, buffer: &mut Vec<u8>)
        ensures
            final(buffer)@ == old(buffer)@ + self.spec_row_bytes(),
    {
        match self {
            BondValue::Float(v) => push_u32_le(buffer, *v),
            BondValue::Int32(v) => push_u32_le(buffer, *v as u32),
            BondValue::String(v) => {
                let b = v.as_str().as_bytes();
                push_u16_le(buffer, b.len() as u16);
                append_bytes(buffer, b);
            },
            BondValue::Double(v) => push_u64_le(buffer, *v),
        }
    }
}

/// Byte-wise lexicographic order: a proper prefix comes first, otherwise the
/// first differing byte decides.
pub open spec fn bytes_lt(a: Seq<u8>, b: Seq<u8>) -> bool
    decreases a.len(),
{
    if a.len() == 0 {
        b.len() > 0
    } else if b.len() == 0 {
        false
    } else if a[0] != b[0] {
        a[0] < b[0]
    } else {
        bytes_lt(a.drop_first(), b.drop_first())
    }
}

/// The order of string keys: the order of their UTF-8 bytes.
pub open spec fn key_lt(a: Seq<char>, b: Seq<char>) -> bool {
    bytes_lt(encode_utf8(a), encode_utf8(b))
}

/// No sequence comes before itself.
pub proof fn lemma_bytes_lt_irreflexive(a: Seq<u8>)
    ensures
        !bytes_lt(a, a),
    decreases a.len(),
{
    if a.len() > 0 {
        lemma_bytes_lt_irreflexive(a.drop_first());
    }
}

/// The byte order is transitive.
pub proof fn lemma_bytes_lt_transitive(a: Seq<u8>, b: Seq<u8>, c: Seq<u8>)
    requires
        bytes_lt(a, b),
        bytes_lt(b, c),
    ensures
        bytes_lt(a, c),
    decreases a.len(),
{
    if a.len() > 0 && b.len() > 0 && c.len() > 0 && a[0] == b[0] && b[0] == c[0] {
        lemma_bytes_lt_transitive(a.drop_first(), b.drop_first(), c.drop_first());
    }
}

/// Of two distinct sequences, exactly one comes first.
pub proof fn lemma_bytes_lt_total(a: Seq<u8>, b: Seq<u8>)
    ensures
        a != b ==> (bytes_lt(a, b) || bytes_lt(b, a)),
        !(bytes_lt(a, b) && bytes_lt(b, a)),
    decreases a.len(),
{
    if a.len() > 0 && b.len() > 0 && a[0] == b[0] {
        lemma_bytes_lt_total(a.drop_first(), b.drop_first());
        if a.drop_first() == b.drop_first() {
            assert(a =~= seq![a[0]] + a.drop_first());
            assert(b =~= seq![b[0]] + b.drop_first());
        }
    } else if a.len() == 0 && b.len() == 0 {
        assert(a =~= b);
    }
}

/// Distinct keys have distinct UTF-8 bytes, so the key order is total.
pub proof fn lemma_key_lt_total(a: Seq<char>, b: Seq<char>)
    ensures
        a != b ==> (key_lt(a, b) || key_lt(b, a)),
        !(key_lt(a, b) && key_lt(b, a)),
        !key_lt(a, a),
{
    broadcast use vstd::utf8::encode_utf8_decode_utf8;

    lemma_bytes_lt_total(encode_utf8(a), encode_utf8(b));
    lemma_bytes_lt_irreflexive(encode_utf8(a));
    if a != b {
        assert(vstd::utf8::decode_utf8(encode_utf8(a)) == a);
        assert(vstd::utf8::decode_utf8(encode_utf8(b)) == b);
    }
}

proof fn lemma_bytes_lt_skip(a: Seq<u8>, b: Seq<u8>, i: int)
    requires
        0 <= i < a.len(),
        i < b.len(),
        a[i] == b[i],
    ensures
        bytes_lt(a.skip(i), b.skip(i)) == bytes_lt(a.skip(i + 1), b.skip(i + 1)),
{
    assert(a.skip(i).drop_first() =~= a.skip(i + 1));
    assert(b.skip(i).drop_first() =~= b.skip(i + 1));
}

/// Whether key `a` comes before key `b`, by their UTF-8 bytes.
pub fn str_lt(a: &str, b: &str) -> (r: bool)
    ensures
        r == key_lt(a@, b@),
{
    let ab = a.as_bytes();
    let bb = b.as_bytes();
    let la = ab.len();
    let lb = bb.len();
    let mut i: usize = 0;
    assert(ab@.skip(0) =~= ab@);
    assert(bb@.skip(0) =~= bb@);
    while i < la && i < lb
        invariant
            la == ab@.len(),
            lb == bb@.len(),
            ab@ == encode_utf8(a@),
            bb@ == encode_utf8(b@),
            i <= la,
            i <= lb,
            bytes_lt(ab@, bb@) == bytes_lt(ab@.skip(i as int), bb@.skip(i as int)),
        decreases la - i,
    {
        if ab[i] != bb[i] {
            return ab[i] < bb[i];
        }
        proof {
            lemma_bytes_lt_skip(ab@, bb@, i as int);
        }
        i = i + 1;
    }
    la < lb
}

/// The key and Bond type id of an entry of the data.
pub open spec fn entry_sig(e: (String, BondValue)) -> (Seq<char>, u8) {
    (e.0@, e.1.spec_type_id())
}

/// The keys and type ids of the data, in the order given.
pub open spec fn data_sigs(data: Seq<(String, BondValue)>) -> Seq<(Seq<char>, u8)> {
    data.map_values(|e: (String, BondValue)| entry_sig(e))
}

/// No key occurs twice: the data is a map from keys to values.
pub open spec fn keys_distinct(data: Seq<(String, BondValue)>) -> bool {
    forall|i: int, j: int| 0 <= i < j < data.len() ==> data[i].0@ != data[j].0@
}

/// The names and type ids of schema fields.
pub open spec fn field_sigs(fields: Seq<(Seq<char>, u8, u16)>) -> Seq<(Seq<char>, u8)> {
    fields.map_values(|f: (Seq<char>, u8, u16)| (f.0, f.1))
}

/// The schema of some data: one field per entry, named after its key and
/// typed by its value, in increasing key order, with field ids 1, 2, 3, ...
pub open spec fn is_schema_of(
    fields: Seq<(Seq<char>, u8, u16)>,
    sigs: Seq<(Seq<char>, u8)>,
) -> bool {
    &&& fields.len() == sigs.len()
    &&& forall|j: int, k: int|
        0 <= j < k < fields.len() ==> key_lt(#[trigger] fields[j].0, #[trigger] fields[k].0)
    &&& forall|j: int| 0 <= j < fields.len() ==> (#[trigger] fields[j]).2 == (j + 1) as u16
    &&& forall|j: int| 0 <= j < fields.len() ==> sigs.contains(#[trigger] field_sigs(fields)[j])
    &&& forall|t: int| 0 <= t < sigs.len() ==> field_sigs(fields).contains(#[trigger] sigs[t])
}

/// Key/type pairs in strictly increasing key order.
pub open spec fn sigs_sorted(a: Seq<(Seq<char>, u8)>) -> bool {
    forall|j: int, k: int| 0 <= j < k < a.len() ==> key_lt(#[trigger] a[j].0, #[trigger] a[k].0)
}

proof fn lemma_sorted_sigs_unique(a: Seq<(Seq<char>, u8)>, b: Seq<(Seq<char>, u8)>)
    requires
        sigs_sorted(a),
        sigs_sorted(b),
        forall|x: (Seq<char>, u8)| a.contains(x) <==> b.contains(x),
    ensures
        a == b,
    decreases a.len(),
{
    if a.len() == 0 {
        if b.len() > 0 {
            assert(b.contains(b[0]));
        }
        assert(a =~= b);
    } else {
        assert(a.contains(a[0]));
        assert(b.contains(a[0]));
        let k = choose|k: int| 0 <= k < b.len() && b[k] == a[0];
        assert(b.contains(b[0]));
        let m = choose|m: int| 0 <= m < a.len() && a[m] == b[0];
        lemma_key_lt_total(a[0].0, b[0].0);
        if k > 0 {
            assert(key_lt(b[0].0, b[k].0));
            if m > 0 {
                assert(key_lt(a[0].0, a[m].0));
            }
            lemma_key_lt_total(b[0].0, b[0].0);
        }
        assert(a[0] == b[0]);
        let a1 = a.drop_first();
        let b1 = b.drop_first();
        assert forall|x: (Seq<char>, u8)| a1.contains(x) <==> b1.contains(x) by {
            if a1.contains(x) {
                let i = choose|i: int| 0 <= i < a1.len() && a1[i] == x;
                assert(a[i + 1] == x);
                assert(key_lt(a[0].0, a[i + 1].0));
                lemma_key_lt_total(x.0, x.0);
                assert(b.contains(x));
                let i2 = choose|i2: int| 0 <= i2 < b.len() && b[i2] == x;
                assert(i2 != 0);
                assert(b1[i2 - 1] == x);
            }
            if b1.contains(x) {
                let i = choose|i: int| 0 <= i < b1.len() && b1[i] == x;
                assert(b[i + 1] == x);
                assert(key_lt(b[0].0, b[i + 1].0));
                lemma_key_lt_total(x.0, x.0);
                assert(a.contains(x));
                let i2 = choose|i2: int| 0 <= i2 < a.len() && a[i2] == x;
                assert(i2 != 0);
                assert(a1[i2 - 1] == x);
            }
        }
        assert(sigs_sorted(a1)) by {
            assert forall|j: int, l: int| 0 <= j < l < a1.len() implies key_lt(
                #[trigger] a1[j].0,
                #[trigger] a1[l].0,
            ) by {
                assert(key_lt(a[j + 1].0, a[l + 1].0));
            }
        }
        assert(sigs_sorted(b1)) by {
            assert forall|j: int, l: int| 0 <= j < l < b1.len() implies key_lt(
                #[trigger] b1[j].0,
                #[trigger] b1[l].0,
            ) by {
                assert(key_lt(b[j + 1].0, b[l + 1].0));
            }
        }
        lemma_sorted_sigs_unique(a1, b1);
        assert(a =~= seq![a[0]] + a1);
        assert(b =~= seq![b[0]] + b1);
    }
}

/// The schema of some data does not depend on the order in which the
/// entries are listed: two listings of the same entries have the same schema.
pub proof fn lemma_schema_order_independent(
    f1: Seq<(Seq<char>, u8, u16)>,
    f2: Seq<(Seq<char>, u8, u16)>,
    d1: Seq<(String, BondValue)>,
    d2: Seq<(String, BondValue)>,
)
    requires
        is_schema_of(f1, data_sigs(d1)),
        is_schema_of(f2, data_sigs(d2)),
        forall|x: (Seq<char>, u8)| data_sigs(d1).contains(x) <==> data_sigs(d2).contains(x),
    ensures
        f1 == f2,
{
    let p1 = field_sigs(f1);
    let p2 = field_sigs(f2);
    let s1 = data_sigs(d1);
    let s2 = data_sigs(d2);
    assert forall|x: (Seq<char>, u8)| p1.contains(x) <==> p2.contains(x) by {
        if p1.contains(x) {
            let j = choose|j: int| 0 <= j < p1.len() && p1[j] == x;
            assert(s1.contains(p1[j]));
            assert(s2.contains(x));
            let t = choose|t: int| 0 <= t < s2.len() && s2[t] == x;
            assert(p2.contains(s2[t]));
        }
        if p2.contains(x) {
            let j = choose|j: int| 0 <= j < p2.len() && p2[j] == x;
            assert(s2.contains(p2[j]));
            assert(s1.contains(x));
            let t = choose|t: int| 0 <= t < s1.len() && s1[t] == x;
            assert(p1.contains(s1[t]));
        }
    }
    assert(sigs_sorted(p1)) by {
        assert forall|j: int, k: int| 0 <= j < k < p1.len() implies key_lt(
            #[trigger] p1[j].0,
            #[trigger] p1[k].0,
        ) by {
            assert(key_lt(f1[j].0, f1[k].0));
        }
    }
    assert(sigs_sorted(p2)) by {
        assert forall|j: int, k: int| 0 <= j < k < p2.len() implies key_lt(
            #[trigger] p2[j].0,
            #[trigger] p2[k].0,
        ) by {
            assert(key_lt(f2[j].0, f2[k].0));
        }
    }
    lemma_sorted_sigs_unique(p1, p2);
    assert forall|j: int| 0 <= j < f1.len() implies f1[j] == f2[j] by {
        assert(p1[j] == p2[j]);
        assert(f1[j].2 == (j + 1) as u16);
        assert(f2[j].2 == (j + 1) as u16);
    }
    assert(f1 =~= f2);
}

/// The schema of the data: the one field list that `is_schema_of` admits.
pub open spec fn data_schema(data: Seq<(String, BondValue)>) -> Seq<(Seq<char>, u8, u16)> {
    choose|f: Seq<(Seq<char>, u8, u16)>| is_schema_of(f, data_sigs(data))
}

/// A field list that is a schema of the data is the data's schema.
pub proof fn lemma_data_schema(f: Seq<(Seq<char>, u8, u16)>, data: Seq<(String, BondValue)>)
    requires
        is_schema_of(f, data_sigs(data)),
    ensures
        data_schema(data) == f,
{
    let g = data_schema(data);
    assert(is_schema_of(g, data_sigs(data)));
    lemma_schema_order_independent(g, f, data, data);
}

proof fn lemma_key_lt_transitive(a: Seq<char>, b: Seq<char>, c: Seq<char>)
    requires
        key_lt(a, b),
        key_lt(b, c),
    ensures
        key_lt(a, c),
{
    lemma_bytes_lt_transitive(encode_utf8(a), encode_utf8(b), encode_utf8(c));
}

proof fn lemma_insert_position(g: Seq<(Seq<char>, u8)>, k: Seq<char>) -> (p: int)
    requires
        sigs_sorted(g),
        forall|j: int| 0 <= j < g.len() ==> (#[trigger] g[j]).0 != k,
    ensures
        0 <= p <= g.len(),
        forall|j: int| 0 <= j < p ==> key_lt((#[trigger] g[j]).0, k),
        forall|j: int| p <= j < g.len() ==> key_lt(k, (#[trigger] g[j]).0),
    decreases g.len(),
{
    if g.len() == 0 {
        0
    } else {
        let last = g.len() - 1;
        assert(g[last].0 != k);
        lemma_key_lt_total(g[last].0, k);
        if key_lt(g[last].0, k) {
            assert forall|j: int| 0 <= j < g.len() implies key_lt((#[trigger] g[j]).0, k) by {
                if j < last {
                    assert(key_lt(g[j].0, g[last].0));
                    lemma_key_lt_transitive(g[j].0, g[last].0, k);
                }
            }
            g.len() as int
        } else {
            let g1 = g.drop_last();
            assert(sigs_sorted(g1)) by {
                assert forall|j: int, l: int| 0 <= j < l < g1.len() implies key_lt(
                    #[trigger] g1[j].0,
                    #[trigger] g1[l].0,
                ) by {
                    assert(key_lt(g[j].0, g[l].0));
                }
            }
            assert forall|j: int| 0 <= j < g1.len() implies (#[trigger] g1[j]).0 != k by {
                assert(g[j].0 != k);
            }
            let p = lemma_insert_position(g1, k);
            assert forall|j: int| 0 <= j < p implies key_lt((#[trigger] g[j]).0, k) by {
                assert(g1[j] == g[j]);
            }
            assert forall|j: int| p <= j < g.len() implies key_lt(k, (#[trigger] g[j]).0) by {
                if j < last {
                    assert(g1[j] == g[j]);
                }
            }
            p
        }
    }
}

/// Data whose keys are distinct has a schema.
pub proof fn lemma_schema_exists(data: Seq<(String, BondValue)>)
    requires
        keys_distinct(data),
    ensures
        is_schema_of(data_schema(data), data_sigs(data)),
    decreases data.len(),
{
    let sigs = data_sigs(data);
    if data.len() == 0 {
        let f = Seq::<(Seq<char>, u8, u16)>::empty();
        assert(field_sigs(f) =~= Seq::<(Seq<char>, u8)>::empty());
        assert(is_schema_of(f, sigs));
    } else {
        let d1 = data.drop_last();
        assert(keys_distinct(d1));
        lemma_schema_exists(d1);
        let f1 = data_schema(d1);
        let s1 = data_sigs(d1);
        let g1 = field_sigs(f1);
        let sig = entry_sig(data.last());
        assert(sigs =~= s1.push(sig));
        assert(sigs_sorted(g1)) by {
            assert forall|j: int, l: int| 0 <= j < l < g1.len() implies key_lt(
                #[trigger] g1[j].0,
                #[trigger] g1[l].0,
            ) by {
                assert(key_lt(f1[j].0, f1[l].0));
            }
        }
        assert forall|j: int| 0 <= j < g1.len() implies (#[trigger] g1[j]).0 != sig.0 by {
            assert(s1.contains(g1[j]));
            let t = choose|t: int| 0 <= t < s1.len() && s1[t] == g1[j];
            assert(data[t].0@ != data[data.len() - 1].0@);
        }
        let p = lemma_insert_position(g1, sig.0);
        let g = g1.insert(p, sig);
        let f = Seq::new(
            g.len(),
            |j: int| (g[j].0, g[j].1, (j + 1) as u16),
        );
        assert(field_sigs(f) =~= g);
        assert forall|j: int, l: int| 0 <= j < l < f.len() implies key_lt(
            #[trigger] f[j].0,
            #[trigger] f[l].0,
        ) by {
            if l < p {
                assert(key_lt(g1[j].0, g1[l].0));
            } else if l == p {
                assert(key_lt(g1[j].0, sig.0));
            } else if j < p {
                assert(key_lt(g1[j].0, sig.0));
                assert(key_lt(sig.0, g1[l - 1].0));
                lemma_key_lt_transitive(g1[j].0, sig.0, g1[l - 1].0);
            } else if j == p {
                assert(key_lt(sig.0, g1[l - 1].0));
            } else {
                assert(key_lt(g1[j - 1].0, g1[l - 1].0));
            }
        }
        assert forall|j: int| 0 <= j < f.len() implies sigs.contains(
            #[trigger] field_sigs(f)[j],
        ) by {
            if j == p {
                assert(sigs[sigs.len() - 1] == sig);
            } else {
                let i = if j < p { j } else { j - 1 };
                assert(g[j] == g1[i]);
                assert(s1.contains(g1[i]));
                let t = choose|t: int| 0 <= t < s1.len() && s1[t] == g1[i];
                assert(sigs[t] == g1[i]);
            }
        }
        assert forall|t: int| 0 <= t < sigs.len() implies field_sigs(f).contains(
            #[trigger] sigs[t],
        ) by {
            if t == sigs.len() - 1 {
                assert(g[p] == sig);
            } else {
                assert(sigs[t] == s1[t]);
                assert(g1.contains(s1[t]));
                let i = choose|i: int| 0 <= i < g1.len() && g1[i] == s1[t];
                if i < p {
                    assert(g[i] == g1[i]);
                } else {
                    assert(g[i + 1] == g1[i]);
                }
            }
        }
        assert(is_schema_of(f, sigs));
    }
}

/// Indices of the data, sorted by key.
fn sorted_indices(data: &Vec<(String, BondValue)>) -> (r: Vec<usize>)
    requires
        keys_distinct(data@),
    ensures
        r@.len() == data@.len(),
        forall|j: int| 0 <= j < r@.len() ==> #[trigger] r@[j] < data@.len(),
        forall|j: int, k: int|
            0 <= j < k < r@.len() ==> key_lt(data@[#[trigger] r@[j] as int].0@, data@[#[trigger] r@[k] as int].0@),
        forall|t: usize| t < data@.len() ==> #[trigger] r@.contains(t),
{
    let n = data.len();
    let mut order: Vec<usize> = Vec::new();
    let mut i: usize = 0;
    while i < n
        invariant
            n == data@.len(),
            keys_distinct(data@),
            i <= n,
            order@.len() == i,
            forall|j: int| 0 <= j < order@.len() ==> #[trigger] order@[j] < i,
            forall|j: int, k: int|
                0 <= j < k < order@.len() ==> key_lt(data@[#[trigger] order@[j] as int].0@, data@[#[trigger] order@[k] as int].0@),
            forall|t: usize| t < i ==> #[trigger] order@.contains(t),
        decreases n - i,
    {
        let key = data[i].0.as_str();
        let mut p: usize = 0;
        while p < order.len() && str_lt(data[order[p]].0.as_str(), key)
            invariant
                n == data@.len(),
                i < n,
                key@ == data@[i as int].0@,
                p <= order@.len(),
                forall|j: int| 0 <= j < order@.len() ==> #[trigger] order@[j] < i,
                forall|j: int| 0 <= j < p ==> key_lt(data@[#[trigger] order@[j] as int].0@, key@),
            decreases order@.len() - p,
        {
            p = p + 1;
        }
        let ghost old_order = order@;
        proof {
            assert forall|j: int| p <= j < old_order.len() implies key_lt(key@, data@[#[trigger] old_order[j] as int].0@) by {
                let kp = data@[old_order[p as int] as int].0@;
                let kj = data@[old_order[j] as int].0@;
                lemma_key_lt_total(kp, key@);
                assert(!key_lt(kp, key@));
                assert(kp != key@);
                if j > p {
                    lemma_bytes_lt_transitive(encode_utf8(key@), encode_utf8(kp), encode_utf8(kj));
                }
            }
        }
        order.insert(p, i);
        proof {
            assert forall|t: usize| t < i + 1 implies #[trigger] order@.contains(t) by {
                if t == i {
                    assert(order@[p as int] == t);
                } else {
                    assert(old_order.contains(t));
                    let j0 = choose|j: int| 0 <= j < old_order.len() && old_order[j] == t;
                    if j0 < p {
                        assert(order@[j0] == t);
                    } else {
                        assert(order@[j0 + 1] == t);
                    }
                }
            }
        }
        i = i + 1;
    }
    order
}

/// The schema fields of the data: one per entry, in increasing key order,
/// typed by the entry's value and numbered from 1.
pub fn schema_fields<'a>(data: &'a Vec<(String, BondValue)>) -> (r: Vec<(&'a str, u8, u16)>)
    requires
        keys_distinct(data@),
    ensures
        is_schema_of(r@.map_values(|f: (&str, u8, u16)| crate::field_view(f)), data_sigs(data@)),
{
    let order = sorted_indices(data);
    let ghost sigs = data_sigs(data@);
    let n = order.len();
    let mut fields: Vec<(&'a str, u8, u16)> = Vec::new();
    let mut j: usize = 0;
    while j < n
        invariant
            n == order@.len(),
            n == data@.len(),
            sigs == data_sigs(data@),
            forall|k: int| 0 <= k < order@.len() ==> #[trigger] order@[k] < data@.len(),
            j <= n,
            fields@.len() == j,
            forall|k: int|
                0 <= k < j ==> {
                    &&& (#[trigger] fields@[k]).0@ == data@[order@[k] as int].0@
                    &&& fields@[k].1 == data@[order@[k] as int].1.spec_type_id()
                    &&& fields@[k].2 == (k + 1) as u16
                },
        decreases n - j,
    {
        let e = &data[order[j]];
        fields.push((e.0.as_str(), e.1.bond_type_id(), (j + 1) as u16));
        j = j + 1;
    }
    let ghost model = fields@.map_values(|f: (&str, u8, u16)| crate::field_view(f));
    proof {
        assert forall|k: int| 0 <= k < model.len() implies sigs.contains(
            #[trigger] field_sigs(model)[k],
        ) by {
            assert(sigs[order@[k] as int] == field_sigs(model)[k]);
        }
        assert forall|t: int| 0 <= t < sigs.len() implies field_sigs(model).contains(
            #[trigger] sigs[t],
        ) by {
            assert(order@.contains(t as usize));
            let k = choose|k: int| 0 <= k < order@.len() && order@[k] == t as usize;
            assert(field_sigs(model)[k] == sigs[t]);
        }
        assert forall|a: int, b: int| 0 <= a < b < model.len() implies key_lt(
            #[trigger] model[a].0,
            #[trigger] model[b].0,
        ) by {
            assert(key_lt(data@[order@[a] as int].0@, data@[order@[b] as int].0@));
        }
    }
    fields
}

/// The value stored under `name` in the data: that of the first entry with
/// that key.
pub open spec fn lookup_value(data: Seq<(String, BondValue)>, name: Seq<char>) -> Option<BondValue>
    decreases data.len(),
{
    if data.len() == 0 {
        None
    } else if data[0].0@ == name {
        Some(data[0].1)
    } else {
        lookup_value(data.drop_first(), name)
    }
}

/// Inserts `x` after every element whose order is not greater than its own.
pub open spec fn insert_by_order(s: Seq<(Seq<char>, u16)>, x: (Seq<char>, u16)) -> Seq<(Seq<char>, u16)>
    decreases s.len(),
{
    if s.len() == 0 {
        seq![x]
    } else if s.last().1 <= x.1 {
        s.push(x)
    } else {
        insert_by_order(s.drop_last(), x).push(s.last())
    }
}

/// The names sorted by their order; names of equal order keep their
/// relative position.
pub open spec fn sort_by_order(s: Seq<(Seq<char>, u16)>) -> Seq<(Seq<char>, u16)>
    decreases s.len(),
{
    if s.len() == 0 {
        Seq::empty()
    } else {
        insert_by_order(sort_by_order(s.drop_last()), s.last())
    }
}

/// The row bytes of the values stored under the given names, in the order
/// of the names; names with no value are skipped.
pub open spec fn ordered_row_bytes(data: Seq<(String, BondValue)>, names: Seq<(Seq<char>, u16)>) -> Seq<u8>
    decreases names.len(),
{
    if names.len() == 0 {
        Seq::empty()
    } else {
        ordered_row_bytes(data, names.drop_last()) + match lookup_value(data, names.last().0) {
            Some(v) => v.spec_row_bytes(),
            None => Seq::empty(),
        }
    }
}

/// The field ordering of a schema: each field's name with its order, the
/// field id, in the schema's field order.
pub open spec fn field_ordering(schema: BondSchema) -> Seq<(Seq<char>, u16)> {
    schema.spec_fields().map_values(|f: (Seq<char>, u8, u16)| (f.0, f.2))
}

/// The field names and orders, as a sequence of plain values.
pub open spec fn ordering_view(o: Seq<(String, u16)>) -> Seq<(Seq<char>, u16)> {
    o.map_values(|e: (String, u16)| (e.0@, e.1))
}

/// The index of the first entry with key `name`, if any.
fn find_value(data: &Vec<(String, BondValue)>, name: &String) -> (r: Option<usize>)
    ensures
        match r {
            Some(k) => k < data@.len() && lookup_value(data@, name@) == Some(data@[k as int].1),
            None => lookup_value(data@, name@) is None,
        },
{
    let n = data.len();
    let mut k: usize = 0;
    assert(data@.skip(0) =~= data@);
    while k < n
        invariant
            n == data@.len(),
            k <= n,
            lookup_value(data@, name@) == lookup_value(data@.skip(k as int), name@),
        decreases n - k,
    {
        if data[k].0 == *name {
            return Some(k);
        }
        assert(data@.skip(k as int).drop_first() =~= data@.skip(k + 1));
        k = k + 1;
    }
    None
}

proof fn lemma_insert_by_order_split(s: Seq<(Seq<char>, u16)>, x: (Seq<char>, u16), p: int)
    requires
        0 <= p <= s.len(),
        forall|j: int| p <= j < s.len() ==> (#[trigger] s[j]).1 > x.1,
        p > 0 ==> s[p - 1].1 <= x.1,
    ensures
        insert_by_order(s, x) == s.take(p).push(x) + s.skip(p),
    decreases s.len(),
{
    if s.len() == 0 {
        assert(s.take(p).push(x) + s.skip(p) =~= seq![x]);
    } else if p == s.len() {
        assert(s.take(p).push(x) + s.skip(p) =~= s.push(x));
    } else {
        let s1 = s.drop_last();
        lemma_insert_by_order_split(s1, x, p);
        assert(s.take(p).push(x) + s.skip(p) =~= (s1.take(p).push(x) + s1.skip(p)).push(s.last()));
    }
}

/// The ordering sorted by order; equal orders keep their relative position.
fn sorted_ordering(ordering: &Vec<(String, u16)>) -> (r: Vec<(String, u16)>)
    ensures
        ordering_view(r@) == sort_by_order(ordering_view(ordering@)),
{
    let ghost input = ordering_view(ordering@);
    let mut sorted: Vec<(String, u16)> = Vec::new();
    let n = ordering.len();
    let mut i: usize = 0;
    while i < n
        invariant
            n == ordering@.len(),
            input == ordering_view(ordering@),
            i <= n,
            ordering_view(sorted@) == sort_by_order(input.take(i as int)),
        decreases n - i,
    {
        let x = (ordering[i].0.clone(), ordering[i].1);
        let ghost xv = (x.0@, x.1);
        assert(xv == input[i as int]);
        let mut p = sorted.len();
        while p > 0 && sorted[p - 1].1 > x.1
            invariant
                p <= sorted@.len(),
                forall|j: int| p <= j < sorted@.len() ==> (#[trigger] sorted@[j]).1 > x.1,
            decreases p,
        {
            p = p - 1;
        }
        let ghost before = ordering_view(sorted@);
        proof {
            lemma_insert_by_order_split(before, xv, p as int);
        }
        sorted.insert(p, x);
        assert(input.take(i + 1).drop_last() =~= input.take(i as int));
        assert(ordering_view(sorted@) =~= before.take(p as int).push(xv) + before.skip(p as int));
        i = i + 1;
    }
    assert(input.take(n as int) =~= input);
    sorted
}

/// The order-sorted names are in increasing order.
pub open spec fn ordered_by_order(s: Seq<(Seq<char>, u16)>) -> bool {
    forall|j: int, k: int| 0 <= j < k < s.len() ==> (#[trigger] s[j]).1 <= (#[trigger] s[k]).1
}

proof fn lemma_insert_by_order_props(s: Seq<(Seq<char>, u16)>, x: (Seq<char>, u16))
    requires
        ordered_by_order(s),
    ensures
        ordered_by_order(insert_by_order(s, x)),
        insert_by_order(s, x).to_multiset() == s.to_multiset().insert(x),
    decreases s.len(),
{
    broadcast use vstd::seq_lib::group_to_multiset_ensures;

    if s.len() == 0 {
        assert(seq![x] =~= Seq::<(Seq<char>, u16)>::empty().push(x));
    } else if s.last().1 <= x.1 {
    } else {
        let s1 = s.drop_last();
        assert(ordered_by_order(s1)) by {
            assert forall|j: int, k: int| 0 <= j < k < s1.len() implies (#[trigger] s1[j]).1 <= (
            #[trigger] s1[k]).1 by {
                assert(s[j].1 <= s[k].1);
            }
        }
        lemma_insert_by_order_props(s1, x);
        let t = insert_by_order(s1, x);
        assert forall|i: int| 0 <= i < t.len() implies (#[trigger] t[i]).1 <= s.last().1 by {
            assert(t.to_multiset().count(t[i]) > 0);
            assert(s1.to_multiset().insert(x).count(t[i]) > 0);
            if t[i] != x {
                assert(s1.to_multiset().count(t[i]) > 0);
                assert(s1.contains(t[i]));
                let j = choose|j: int| 0 <= j < s1.len() && s1[j] == t[i];
                assert(s[j].1 <= s[s.len() - 1].1);
            }
        }
        let r = t.push(s.last());
        assert forall|j: int, k: int| 0 <= j < k < r.len() implies (#[trigger] r[j]).1 <= (
        #[trigger] r[k]).1 by {
            if k < t.len() {
                assert(r[j] == t[j] && r[k] == t[k]);
            } else {
                assert(r[j] == t[j]);
            }
        }
        assert(s =~= s1.push(s.last()));
        assert(r.to_multiset() =~= s.to_multiset().insert(x));
    }
}

/// Sorting by order keeps every name and puts them in increasing order.
pub proof fn lemma_sort_by_order(s: Seq<(Seq<char>, u16)>)
    ensures
        ordered_by_order(sort_by_order(s)),
        sort_by_order(s).to_multiset() == s.to_multiset(),
    decreases s.len(),
{
    broadcast use vstd::seq_lib::group_to_multiset_ensures;

    if s.len() == 0 {
        assert(sort_by_order(s) =~= s);
    } else {
        lemma_sort_by_order(s.drop_last());
        lemma_insert_by_order_props(sort_by_order(s.drop_last()), s.last());
        assert(s =~= s.drop_last().push(s.last()));
    }
}

/// A row is the value bytes of its names one after the other: adding a
/// name adds the bytes of the value stored under it, or nothing where no
/// value is.
pub proof fn lemma_ordered_row_bytes_push(
    data: Seq<(String, BondValue)>,
    names: Seq<(Seq<char>, u16)>,
    x: (Seq<char>, u16),
)
    ensures
        ordered_row_bytes(data, names.push(x)) == ordered_row_bytes(data, names) + match lookup_value(
            data,
            x.0,
        ) {
            Some(v) => v.spec_row_bytes(),
            None => Seq::empty(),
        },
{
    assert(names.push(x).drop_last() =~= names);
}

/// The MD5 digest of a byte sequence, as the `md5` crate computes it.
pub uninterp spec fn md5_digest(data: Seq<u8>) -> Seq<u8>;

/// Calls `md5::compute` on `data` and returns the digest's sixteen bytes;
/// trusted to equal `md5_digest` of the data (the digest is a function of
/// the input bytes alone).
#[verifier::external_body]
fn md5_bytes(data: &[u8]) -> (r: [u8; 16])
    ensures
        r@ == md5_digest(data@),
{
    md5::compute(data).0
}

/// The state of a default hasher after `<str as Hash>::hash` fed it the
/// text `s`, from the state `state`.
pub uninterp spec fn str_hash_step(state: Seq<Seq<u8>>, s: Seq<char>) -> Seq<Seq<u8>>;

/// The state of a default hasher after `<u8 as Hash>::hash` fed it `v`,
/// from the state `state`.
pub uninterp spec fn u8_hash_step(state: Seq<Seq<u8>>, v: u8) -> Seq<Seq<u8>>;

/// The state of a default hasher after `<u16 as Hash>::hash` fed it `v`,
/// from the state `state`.
pub uninterp spec fn u16_hash_step(state: Seq<Seq<u8>>, v: u16) -> Seq<Seq<u8>>;

/// Calls `<str as Hash>::hash` with `state`; trusted to leave the hasher in
/// `str_hash_step` of its former state and the text (what it feeds depends
/// on the text alone). Which bytes it feeds is left unsaid.
#[verifier::external_body]
fn hash_str(state: &mut DefaultHasher, name: &str)
    ensures
        final(state)@ == str_hash_step(old(state)@, name@),
{
    name.hash(state)
}

/// Calls `<u8 as Hash>::hash` with `state`; trusted to leave the hasher in
/// `u8_hash_step` of its former state and the value. Which bytes it feeds is
/// left unsaid.
#[verifier::external_body]
fn hash_u8(state: &mut DefaultHasher, value: u8)
    ensures
        final(state)@ == u8_hash_step(old(state)@, value),
{
    value.hash(state)
}

/// Calls `<u16 as Hash>::hash` with `state`; trusted to leave the hasher in
/// `u16_hash_step` of its former state and the value, for the build's target
/// (the bytes fed follow the target's byte order, fixed when the crate is
/// built). Which bytes it feeds is left unsaid.
#[verifier::external_body]
fn hash_u16(state: &mut DefaultHasher, value: u16)
    ensures
        final(state)@ == u16_hash_step(old(state)@, value),
{
    value.hash(state)
}

/// The state of a fresh default hasher after every field was fed to it in
/// order: its name, then its type id, then its field id.
pub open spec fn schema_hash_state(fields: Seq<(Seq<char>, u8, u16)>) -> Seq<Seq<u8>>
    decreases fields.len(),
{
    if fields.len() == 0 {
        Seq::empty()
    } else {
        let f = fields.last();
        u16_hash_step(
            u8_hash_step(str_hash_step(schema_hash_state(fields.drop_last()), f.0), f.1),
            f.2,
        )
    }
}

/// The schema id of a field list: the default hasher's digest of the fields.
pub open spec fn spec_schema_id(fields: Seq<(Seq<char>, u8, u16)>) -> u64 {
    <DefaultHasher as vstd::std_specs::hash::DefaultHasherAdditionalSpecFns>::spec_finish(
        schema_hash_state(fields),
    )
}

/// A schema as the cache holds it: its fields and its binary form.
pub type SchemaModel = (Seq<(Seq<char>, u8, u16)>, Seq<u8>);

/// The fields and binary form of a schema.
pub open spec fn schema_model(s: BondSchema) -> SchemaModel {
    (s.spec_fields(), s.spec_bytes())
}

/// The entry that stands for schema `m` under `id`: the id, the MD5 of the
/// schema's binary form, and the schema itself.
pub open spec fn entry_matches(e: CentralSchemaEntry, id: u64, m: SchemaModel) -> bool {
    &&& e.id == id
    &&& e.md5@ == md5_digest(m.1)
    &&& schema_model(e.schema) == m
}

/// The schema id of a field list is the digest of a fresh hasher (whose
/// state is empty, as `DefaultHasher::new` leaves it) fed, for every field
/// in order, its name, then its type id, then its field id.
pub proof fn lemma_schema_hash_state(
    fields: Seq<(Seq<char>, u8, u16)>,
    f: (Seq<char>, u8, u16),
)
    ensures
        schema_hash_state(Seq::empty()) == Seq::<Seq<u8>>::empty(),
        schema_hash_state(fields.push(f)) == u16_hash_step(
            u8_hash_step(str_hash_step(schema_hash_state(fields), f.0), f.1),
            f.2,
        ),
        spec_schema_id(fields) == <DefaultHasher as vstd::std_specs::hash::DefaultHasherAdditionalSpecFns>::spec_finish(
            schema_hash_state(fields),
        ),
{
    assert(fields.push(f).drop_last() =~= fields);
}

/// The row bytes of a 32-bit integer are four bytes that read back,
/// little-endian, as the integer's two's-complement value.
pub proof fn lemma_int32_row_bytes(v: i32)
    ensures
        BondValue::Int32(v).spec_row_bytes().len() == 4,
        u32_at(BondValue::Int32(v).spec_row_bytes(), 0) == (if v >= 0 {
            v as int
        } else {
            v + 0x1_0000_0000
        }),
{
    lemma_u32_le_value(v as u32);
    assert(0 <= v ==> (v as u32) as i64 == v as i64) by (bit_vector);
    assert(v < 0 ==> (v as u32) as i64 == (v as i64) + 0x1_0000_0000i64) by (bit_vector);
}

/// The row bytes of a float are the four bytes of its bit pattern,
/// little-endian.
pub proof fn lemma_float_row_bytes(bits: u32)
    ensures
        BondValue::Float(bits).spec_row_bytes().len() == 4,
        u32_at(BondValue::Float(bits).spec_row_bytes(), 0) == bits,
{
    lemma_u32_le_value(bits);
}

/// The row bytes of a double are the eight bytes of its bit pattern,
/// little-endian.
pub proof fn lemma_double_row_bytes(bits: u64)
    ensures
        BondValue::Double(bits).spec_row_bytes().len() == 8,
        u64_at(BondValue::Double(bits).spec_row_bytes(), 0) == bits,
{
    lemma_u64_le_read(bits);
}

/// The row bytes of a string are its UTF-8 length in two bytes,
/// little-endian, then its UTF-8 bytes, which decode to the string (for
/// strings shorter than 2^16 bytes; a longer one has its length truncated).
pub proof fn lemma_string_row_bytes(s: String)
    requires
        encode_utf8(s@).len() <= u16::MAX,
    ensures
        ({
            let b = BondValue::String(s).spec_row_bytes();
            let n = u16_at(b, 0);
            &&& n == encode_utf8(s@).len()
            &&& b.len() == 2 + n
            &&& vstd::utf8::decode_utf8(b.subrange(2, 2 + n)) == s@
        }),
{
    broadcast use vstd::utf8::encode_utf8_decode_utf8;

    let u = encode_utf8(s@);
    let b = BondValue::String(s).spec_row_bytes();
    lemma_u16_le_read(u.len() as u16);
    assert(b.subrange(0, 2) =~= u16_le(u.len() as u16));
    assert(u16_at(b, 0) == u16_at(b.subrange(0, 2), 0));
    assert(b.subrange(2, 2 + u.len() as int) =~= u);
    assert(vstd::utf8::decode_utf8(u) == s@);
}

/// What the schema step of an encoding found: a schema cached under the id
/// of the data's fields, or a description that still has to be marshaled.
pub enum SchemaStep<'a> {
    Cached { schema_id: u64, entry: CentralSchemaEntry },
    Marshal { schema_id: u64, fields: Vec<(&'a str, u8, u16)>, request: Vec<u8> },
}

/// The main Bond encoder struct
pub struct BondEncoder {
    schema_cache: HashMap<u64, BondSchema>,
}

impl BondEncoder {
    /// The cached schemas by id.
    pub closed spec fn cache(&self) -> Map<u64, SchemaModel> {
        self.schema_cache@.map_values(|s: BondSchema| schema_model(s))
    }

    /// Every cached schema is cached under the schema id of its fields.
    pub open spec fn cache_consistent(&self) -> bool {
        forall|id: u64| #[trigger]
            self.cache().contains_key(id) ==> id == spec_schema_id(self.cache()[id].0)
    }

    /// An encoder with an empty schema cache.
    pub fn new() -> (r: Self)
        ensures
            r.cache() == Map::<u64, SchemaModel>::empty(),
            r.cache_consistent(),
    {
        let r = BondEncoder { schema_cache: HashMap::new() };
        assert(r.cache() =~= Map::<u64, SchemaModel>::empty());
        r
    }

    /// Helper to calculate a schema ID based on the field definitions: the
    /// standard library's default hasher over every field's name, type id
    /// and field id, in order.
    pub fn calculate_schema_id(&self, fields: &[(&str, u8, u16)]) -> (r: u64)
        ensures
            r == spec_schema_id(fields@.map_values(|f: (&str, u8, u16)| field_view(f))),
    {
        let ghost model = fields@.map_values(|f: (&str, u8, u16)| field_view(f));
        let mut hasher = DefaultHasher::new();
        let n = fields.len();
        let mut i: usize = 0;
        while i < n
            invariant
                n == fields@.len(),
                model == fields@.map_values(|f: (&str, u8, u16)| field_view(f)),
                i <= n,
                hasher@ == schema_hash_state(model.take(i as int)),
            decreases n - i,
        {
            let (name, type_id, field_id) = fields[i];
            hash_str(&mut hasher, name);
            hash_u8(&mut hasher, type_id);
            hash_u16(&mut hasher, field_id);
            assert(model.take(i + 1).drop_last() =~= model.take(i as int));
            i = i + 1;
        }
        assert(model.take(n as int) =~= model);
        hasher.finish()
    }

    /// The entry for the schema cached under `schema_id`, if there is one:
    /// a copy of the schema with the MD5 of its binary form.
    pub fn lookup_schema(&self, schema_id: u64) -> (r: Option<CentralSchemaEntry>)
        ensures
            match r {
                Some(e) => self.cache().contains_key(schema_id) && entry_matches(
                    e,
                    schema_id,
                    self.cache()[schema_id],
                ),
                None => !self.cache().contains_key(schema_id),
            },
    {
        broadcast use vstd::std_specs::hash::group_hash_axioms;

        match self.schema_cache.get(&schema_id) {
            Some(schema) => {
                let schema_md5 = md5_bytes(schema.as_bytes());
                Some(CentralSchemaEntry { id: schema_id, md5: schema_md5, schema: schema.duplicate() })
            },
            None => None,
        }
    }

    /// Create or retrieve a schema for the given data: its fields in key
    /// order and their id; the cached entry when the id is cached, else the
    /// description that the marshaller has to turn into the schema.
    pub fn create_schema_from_data<'a>(&self, data: &'a Vec<(String, BondValue)>) -> (r: SchemaStep<'a>)
        requires
            keys_distinct(data@),
        ensures
            is_schema_of(data_schema(data@), data_sigs(data@)),
            match r {
                SchemaStep::Cached { schema_id, entry } => {
                    &&& schema_id == spec_schema_id(data_schema(data@))
                    &&& self.cache().contains_key(schema_id)
                    &&& entry_matches(entry, schema_id, self.cache()[schema_id])
                },
                SchemaStep::Marshal { schema_id, fields, request } => {
                    let model = fields@.map_values(|f: (&str, u8, u16)| field_view(f));
                    &&& model == data_schema(data@)
                    &&& schema_id == spec_schema_id(model)
                    &&& !self.cache().contains_key(schema_id)
                    &&& request@ == schema_request(model)
                },
            },
    {
        let fields = schema_fields(data);
        proof {
            lemma_data_schema(fields@.map_values(|f: (&str, u8, u16)| field_view(f)), data@);
        }
        let schema_id = self.calculate_schema_id(fields.as_slice());
        match self.lookup_schema(schema_id) {
            Some(entry) => SchemaStep::Cached { schema_id, entry },
            None => {
                let request = crate::encode_schema_request(fields.as_slice());
                SchemaStep::Marshal { schema_id, fields, request }
            },
        }
    }

    /// Extract field ordering from schema: each field name with its field
    /// order (the field id).
    pub fn extract_field_ordering_from_schema(&self, schema: &BondSchema) -> (r: Vec<(String, u16)>)
        ensures
            ordering_view(r@) == field_ordering(*schema),
    {
        let r = schema.field_names_and_ids();
        assert(ordering_view(r@) =~= field_ordering(*schema));
        r
    }

    /// Create row bytes from data: the values of the fields that the
    /// schema's ordering names, in that order; fields without a value are
    /// skipped.
    pub fn create_row_bytes(&self, data: &Vec<(String, BondValue)>, schema_entry: &CentralSchemaEntry) -> (r: Vec<u8>)
        ensures
            r@ == ordered_row_bytes(data@, sort_by_order(field_ordering(schema_entry.schema))),
    {
        let field_order = self.extract_field_ordering_from_schema(&schema_entry.schema);
        let ordered_fields = sorted_ordering(&field_order);
        let ghost names = ordering_view(ordered_fields@);
        let mut buffer: Vec<u8> = Vec::new();
        let n = ordered_fields.len();
        let mut i: usize = 0;
        while i < n
            invariant
                n == ordered_fields@.len(),
                names == ordering_view(ordered_fields@),
                i <= n,
                buffer@ == ordered_row_bytes(data@, names.take(i as int)),
            decreases n - i,
        {
            match find_value(data, &ordered_fields[i].0) {
                Some(k) => data[k].1.write_to_buffer(&mut buffer),
                None => {},
            }
            assert(names.take(i + 1).drop_last() =~= names.take(i as int));
            i = i + 1;
        }
        assert(names.take(n as int) =~= names);
        buffer
    }

    /// Caches the schema built from `fields`, whose binary form the
    /// marshaller produced as `marshaled`, under the schema id of `fields`,
    /// and returns its entry.
    pub fn complete_schema(&mut self, fields: &[(&str, u8, u16)], marshaled: Vec<u8>) -> (r:
        CentralSchemaEntry)
        ensures
            final(self).cache() == old(self).cache().insert(
                spec_schema_id(fields@.map_values(|f: (&str, u8, u16)| field_view(f))),
                (fields@.map_values(|f: (&str, u8, u16)| field_view(f)), marshaled@),
            ),
            entry_matches(
                r,
                spec_schema_id(fields@.map_values(|f: (&str, u8, u16)| field_view(f))),
                (fields@.map_values(|f: (&str, u8, u16)| field_view(f)), marshaled@),
            ),
            old(self).cache_consistent() ==> final(self).cache_consistent(),
    {
        broadcast use vstd::std_specs::hash::group_hash_axioms;

        let schema_id = self.calculate_schema_id(fields);
        let schema = BondSchema::from_fields(fields, marshaled);
        self.schema_cache.insert(schema_id, schema.clone());
        let schema_md5 = md5_bytes(schema.as_bytes());
        assert(self.cache() =~= old(self).cache().insert(schema_id, schema_model(schema)));
        CentralSchemaEntry { id: schema_id, md5: schema_md5, schema }
    }
}

/// What `complete_schema` caches under an id is what `lookup_schema` (and so
/// the schema step of the next encoding whose fields have that id) finds
/// under it afterwards; every other id keeps what it had.
pub proof fn lemma_cache_read_after_complete(
    before: BondEncoder,
    after: BondEncoder,
    schema_id: u64,
    m: SchemaModel,
    other: u64,
)
    requires
        after.cache() == before.cache().insert(schema_id, m),
    ensures
        after.cache().contains_key(schema_id),
        after.cache()[schema_id] == m,
        other != schema_id ==> (after.cache().contains_key(other) == before.cache().contains_key(
            other,
        )),
        other != schema_id && before.cache().contains_key(other) ==> after.cache()[other]
            == before.cache()[other],
{
}

/// A cache hit right after caching gives what the fresh build gave: once
/// `complete_schema` has cached the schema of some data, marshaled as
/// `marshaled`, the schema step on data with the same entries, listed in any
/// order, computes the same id and finds there the same fields and the same
/// binary form.
pub proof fn lemma_cache_hit_after_caching(
    before: BondEncoder,
    after: BondEncoder,
    d1: Seq<(String, BondValue)>,
    d2: Seq<(String, BondValue)>,
    marshaled: Seq<u8>,
)
    requires
        keys_distinct(d1),
        keys_distinct(d2),
        forall|x: (Seq<char>, u8)| data_sigs(d1).contains(x) <==> data_sigs(d2).contains(x),
        after.cache() == before.cache().insert(
            spec_schema_id(data_schema(d1)),
            (data_schema(d1), marshaled),
        ),
    ensures
        spec_schema_id(data_schema(d2)) == spec_schema_id(data_schema(d1)),
        after.cache().contains_key(spec_schema_id(data_schema(d2))),
        after.cache()[spec_schema_id(data_schema(d2))] == (data_schema(d2), marshaled),
{
    lemma_schema_exists(d1);
    lemma_schema_exists(d2);
    lemma_schema_order_independent(data_schema(d1), data_schema(d2), d1, d2);
}

/// A cache hit gives the fields a fresh build would marshal, after any
/// history of encodings: in an encoder whose cache is consistent (as `new`
/// makes it and `complete_schema` keeps it), the schema cached under the id
/// of some data's schema is that schema, unless another field list shares
/// the id.
pub proof fn lemma_cache_hit_matches_fresh_build(e: BondEncoder, d: Seq<(String, BondValue)>)
    requires
        e.cache_consistent(),
        e.cache().contains_key(spec_schema_id(data_schema(d))),
        forall|g: Seq<(Seq<char>, u8, u16)>|
            #[trigger] spec_schema_id(g) == spec_schema_id(data_schema(d)) ==> g == data_schema(d),
    ensures
        e.cache()[spec_schema_id(data_schema(d))].0 == data_schema(d),
{
    let id = spec_schema_id(data_schema(d));
    assert(id == spec_schema_id(e.cache()[id].0));
}

/// With distinct keys, the value stored under a key is that of the entry
/// with that key.
pub proof fn lemma_lookup_value_at(d: Seq<(String, BondValue)>, i: int)
    requires
        keys_distinct(d),
        0 <= i < d.len(),
    ensures
        lookup_value(d, d[i].0@) == Some(d[i].1),
    decreases d.len(),
{
    if i > 0 {
        let d1 = d.drop_first();
        assert(d[0].0@ != d[i].0@);
        assert(keys_distinct(d1));
        assert(d1[i - 1] == d[i]);
        lemma_lookup_value_at(d1, i - 1);
    }
}

/// A key that no entry has stores no value.
pub proof fn lemma_lookup_value_absent(d: Seq<(String, BondValue)>, n: Seq<char>)
    requires
        forall|i: int| 0 <= i < d.len() ==> (#[trigger] d[i]).0@ != n,
    ensures
        lookup_value(d, n) is None,
    decreases d.len(),
{
    if d.len() > 0 {
        let d1 = d.drop_first();
        assert(d[0].0@ != n);
        assert forall|i: int| 0 <= i < d1.len() implies (#[trigger] d1[i]).0@ != n by {
            assert(d1[i] == d[i + 1]);
        }
        lemma_lookup_value_absent(d1, n);
    }
}

/// Two listings of the same entries, keys distinct, store the same value
/// under every key.
pub proof fn lemma_lookup_value_order_independent(
    d1: Seq<(String, BondValue)>,
    d2: Seq<(String, BondValue)>,
    n: Seq<char>,
)
    requires
        keys_distinct(d1),
        keys_distinct(d2),
        forall|e: (String, BondValue)| d1.contains(e) <==> d2.contains(e),
    ensures
        lookup_value(d1, n) == lookup_value(d2, n),
{
    if exists|i: int| 0 <= i < d1.len() && (#[trigger] d1[i]).0@ == n {
        let i = choose|i: int| 0 <= i < d1.len() && (#[trigger] d1[i]).0@ == n;
        assert(d1.contains(d1[i]));
        assert(d2.contains(d1[i]));
        let j = choose|j: int| 0 <= j < d2.len() && d2[j] == d1[i];
        lemma_lookup_value_at(d1, i);
        lemma_lookup_value_at(d2, j);
    } else {
        assert forall|j: int| 0 <= j < d2.len() implies (#[trigger] d2[j]).0@ != n by {
            if d2[j].0@ == n {
                assert(d2.contains(d2[j]));
                assert(d1.contains(d2[j]));
                let i = choose|i: int| 0 <= i < d1.len() && d1[i] == d2[j];
                assert(d1[i].0@ == n);
            }
        }
        lemma_lookup_value_absent(d1, n);
        lemma_lookup_value_absent(d2, n);
    }
}

/// The row does not depend on the order in which the entries are listed:
/// for any field ordering, two listings of the same entries (keys distinct)
/// give the same row bytes.
pub proof fn lemma_row_bytes_order_independent(
    d1: Seq<(String, BondValue)>,
    d2: Seq<(String, BondValue)>,
    names: Seq<(Seq<char>, u16)>,
)
    requires
        keys_distinct(d1),
        keys_distinct(d2),
        forall|e: (String, BondValue)| d1.contains(e) <==> d2.contains(e),
    ensures
        ordered_row_bytes(d1, names) == ordered_row_bytes(d2, names),
    decreases names.len(),
{
    if names.len() > 0 {
        lemma_row_bytes_order_independent(d1, d2, names.drop_last());
        lemma_lookup_value_order_independent(d1, d2, names.last().0);
    }
}

/// An encoding does not depend on the order in which the entries are
/// listed: two listings of the same entries (keys distinct) have the same
/// schema, the same schema id, and the same row bytes for any schema.
pub proof fn lemma_encoding_order_independent(
    d1: Seq<(String, BondValue)>,
    d2: Seq<(String, BondValue)>,
    schema: BondSchema,
)
    requires
        keys_distinct(d1),
        keys_distinct(d2),
        forall|e: (String, BondValue)| d1.contains(e) <==> d2.contains(e),
    ensures
        data_schema(d1) == data_schema(d2),
        spec_schema_id(data_schema(d1)) == spec_schema_id(data_schema(d2)),
        ordered_row_bytes(d1, sort_by_order(field_ordering(schema))) == ordered_row_bytes(
            d2,
            sort_by_order(field_ordering(schema)),
        ),
{
    let s1 = data_sigs(d1);
    let s2 = data_sigs(d2);
    assert forall|x: (Seq<char>, u8)| s1.contains(x) <==> s2.contains(x) by {
        if s1.contains(x) {
            let i = choose|i: int| 0 <= i < s1.len() && s1[i] == x;
            assert(d1.contains(d1[i]));
            let j = choose|j: int| 0 <= j < d2.len() && d2[j] == d1[i];
            assert(s2[j] == x);
        }
        if s2.contains(x) {
            let i = choose|i: int| 0 <= i < s2.len() && s2[i] == x;
            assert(d2.contains(d2[i]));
            let j = choose|j: int| 0 <= j < d1.len() && d1[j] == d2[i];
            assert(s1[j] == x);
        }
    }
    lemma_schema_exists(d1);
    lemma_schema_exists(d2);
    lemma_schema_order_independent(data_schema(d1), data_schema(d2), d1, d2);
    lemma_row_bytes_order_independent(d1, d2, sort_by_order(field_ordering(schema)));
}

/// Builds the blob of one encoding (version 1, format 2) from the schema
/// entry and the marshaled row, with the event under the entry's schema id,
/// and serializes it.
pub fn encode_blob(
    schema_entry: CentralSchemaEntry,
    row: BondRow,
    event_name: &str,
    level: u8,
    metadata: &str,
) -> (r: Vec<u8>)
    ensures
        r@ == header(1, 2, metadata@) + schema_entry_bytes(schema_entry) + event_bytes(
            schema_entry.id,
            level,
            event_name@,
            row.spec_bytes(),
        ),
{
    let ghost entry_bytes = schema_entry_bytes(schema_entry);
    let schema_id = schema_entry.id;
    let ghost ev_bytes = event_bytes(schema_id, level, event_name@, row.spec_bytes());
    let event = CentralEventEntry { schema_id, level, event_name: event_name.to_owned(), row };
    let mut schemas: Vec<CentralSchemaEntry> = Vec::new();
    schemas.push(schema_entry);
    let mut events: Vec<CentralEventEntry> = Vec::new();
    events.push(event);
    let blob = CentralBondBlob { version: 1, format: 2, metadata: metadata.to_owned(), schemas, events };
    let r = blob.to_bytes();
    assert(blob.schemas@.drop_last() =~= Seq::<CentralSchemaEntry>::empty());
    assert(blob.events@.drop_last() =~= Seq::<CentralEventEntry>::empty());
    assert(crate::central_bond::schemas_bytes(Seq::<CentralSchemaEntry>::empty()) =~= Seq::<u8>::empty());
    assert(crate::central_bond::events_bytes(Seq::<CentralEventEntry>::empty()) =~= Seq::<u8>::empty());
    assert(crate::central_bond::schemas_bytes(blob.schemas@) =~= entry_bytes);
    assert(crate::central_bond::events_bytes(blob.events@) =~= ev_bytes);
    r
}

} // verus!

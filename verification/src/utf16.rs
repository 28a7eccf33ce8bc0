//! UTF-16LE encoding of text, as the blob format stores its strings.
use vstd::prelude::*;
use crate::wire::{u16_le, push_u16_le};

verus! {

/// The UTF-16 code units of one character: one unit inside the basic
/// multilingual plane, a surrogate pair above it.
pub open spec fn utf16_units(c: char) -> Seq<u16> {
    let v = c as u32;
    if v < 0x10000 {
        seq![v as u16]
    } else {
        let u = (v - 0x10000) as u32;
        seq![(0xD800 + u / 1024) as u16, (0xDC00 + u % 1024) as u16]
    }
}

/// The little-endian bytes of the UTF-16 code units of one character.
pub open spec fn char_utf16le(c: char) -> Seq<u8> {
    let units = utf16_units(c);
    if units.len() == 1 {
        u16_le(units[0])
    } else {
        u16_le(units[0]) + u16_le(units[1])
    }
}

/// The UTF-16LE encoding of a text: the encodings of its characters, in order.
pub open spec fn utf16le_bytes(s: Seq<char>) -> Seq<u8>
    decreases s.len(),
{
    if s.len() == 0 {
        Seq::empty()
    } else {
        utf16le_bytes(s.drop_last()) + char_utf16le(s.last())
    }
}

/// Encodes a UTF-8 string as UTF-16LE bytes.
pub fn utf8_to_utf16le_bytes(s: &str) -> (r: Vec<u8>)
    ensures
        r@ == utf16le_bytes(s@),
{
    broadcast use vstd::utf8::char_is_scalar, vstd::string::axiom_spec_iter;

    let mut buf: Vec<u8> = Vec::new();
    for c in it: s.chars()
        invariant
            it.seq() == s@,
            buf@ == utf16le_bytes(s@.take(it.index() as int)),
    {
        let ghost prefix = s@.take(it.index() as int);
        let v = c as u32;
        if v < 0x10000 {
            push_u16_le(&mut buf, v as u16);
        } else {
            let u = v - 0x10000;
            push_u16_le(&mut buf, (0xD800 + u / 1024) as u16);
            push_u16_le(&mut buf, (0xDC00 + u % 1024) as u16);
        }
        assert(s@.take(it.index() + 1).drop_last() =~= prefix);
    }
    assert(s@.take(s@.len() as int) =~= s@);
    buf
}

/// The code unit stored little-endian in the two bytes at `i` and `i + 1`.
pub open spec fn unit_at(b: Seq<u8>, i: int) -> u32 {
    (b[i] as u32 + 256 * (b[i + 1] as u32)) as u32
}

/// Reads UTF-16LE bytes back into text, from the last character to the first;
/// `None` where the bytes are not a well-formed encoding.
pub open spec fn decode_utf16le(b: Seq<u8>) -> Option<Seq<char>>
    decreases b.len(),
{
    if b.len() == 0 {
        Some(Seq::empty())
    } else if b.len() % 2 == 1 {
        None
    } else {
        let lo = unit_at(b, b.len() - 2);
        if 0xDC00 <= lo < 0xE000 {
            if b.len() < 4 {
                None
            } else {
                let hi = unit_at(b, b.len() - 4);
                if 0xD800 <= hi < 0xDC00 {
                    let v = (0x10000 + (hi - 0xD800) * 1024 + (lo - 0xDC00)) as u32;
                    match decode_utf16le(b.take(b.len() - 4)) {
                        Some(rest) => Some(rest.push(v as char)),
                        None => None,
                    }
                } else {
                    None
                }
            }
        } else if 0xD800 <= lo < 0xDC00 {
            None
        } else {
            match decode_utf16le(b.take(b.len() - 2)) {
                Some(rest) => Some(rest.push(lo as char)),
                None => None,
            }
        }
    }
}

proof fn lemma_u16_le_unit(x: u16)
    ensures
        (x as u8) as u32 + 256 * (((x >> 8u16) as u8) as u32) == x as u32,
{
    assert((x as u8) as u32 + 256 * (((x >> 8u16) as u8) as u32) == x as u32) by (bit_vector);
}

/// Decoding the UTF-16LE encoding of a text gives the text back: the encoding
/// loses nothing, so distinct texts never share an encoding.
pub proof fn lemma_utf16le_round_trip(s: Seq<char>)
    ensures
        decode_utf16le(utf16le_bytes(s)) == Some(s),
    decreases s.len(),
{
    if s.len() > 0 {
        let p = utf16le_bytes(s.drop_last());
        let c = s.last();
        let e = char_utf16le(c);
        let b = utf16le_bytes(s);
        lemma_utf16le_round_trip(s.drop_last());
        lemma_utf16le_even(s.drop_last());
        assert(b == p + e);
        let v = c as u32;
        vstd::utf8::char_is_scalar(c);
        vstd::utf8::char_u32_cast(c, v);
        let units = utf16_units(c);
        if v < 0x10000 {
            lemma_u16_le_unit(v as u16);
            assert(b.take(b.len() - 2) =~= p);
            assert(unit_at(b, b.len() - 2) == v);
            assert(b.len() % 2 == 0);
            assert(!(0xDC00 <= v < 0xE000));
            assert(!(0xD800 <= v < 0xDC00));
            assert((v as char) == c);
            assert(decode_utf16le(b) == Some(s.drop_last().push(c)));
            assert(s.drop_last().push(c) =~= s);
        } else {
            let u = (v - 0x10000) as u32;
            lemma_u16_le_unit(units[0]);
            lemma_u16_le_unit(units[1]);
            assert(b.take(b.len() - 4) =~= p);
            assert(unit_at(b, b.len() - 2) == units[1] as u32);
            assert(unit_at(b, b.len() - 4) == units[0] as u32);
            assert(u / 1024 * 1024 + u % 1024 == u);
            assert(b.len() % 2 == 0);
            assert(0xDC00 <= units[1] < 0xE000);
            assert(0xD800 <= units[0] < 0xDC00);
            assert((0x10000 + (units[0] - 0xD800) * 1024 + (units[1] - 0xDC00)) as u32 == v);
            assert((v as char) == c);
            assert(decode_utf16le(b) == Some(s.drop_last().push(c)));
            assert(s.drop_last().push(c) =~= s);
        }
    }
}

/// Every encoding is made of whole 16-bit units.
pub proof fn lemma_utf16le_even(s: Seq<char>)
    ensures
        utf16le_bytes(s).len() % 2 == 0,
    decreases s.len(),
{
    if s.len() > 0 {
        lemma_utf16le_even(s.drop_last());
    }
}

} // verus!

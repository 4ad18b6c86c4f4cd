//! UTF-16 model: encoding Unicode scalar values as 16-bit code units,
//! decoding code-unit sequences (failing on unpaired surrogates), and the
//! big-endian byte layout of code units.

use crate::error::{Error, ErrorKind};
use crate::stream::{be16_bytes, be16_val};
use vstd::arithmetic::div_mod::{lemma_fundamental_div_mod, lemma_multiply_divide_lt};
use vstd::prelude::*;
use vstd::string::StrSliceExecFns;
use vstd::utf8::is_scalar;

verus! {

broadcast use vstd::utf8::char_is_scalar, vstd::utf8::char_u32_cast;

pub open spec fn is_high_surrogate(u: u16) -> bool {
    0xD800 <= u <= 0xDBFF
}

pub open spec fn is_low_surrogate(u: u16) -> bool {
    0xDC00 <= u <= 0xDFFF
}

/// The UTF-16 code units of one Unicode scalar value: scalars below 2^16 take
/// a single unit, all others a surrogate pair.
pub open spec fn encode_char_utf16(c: char) -> Seq<u16> {
    let v = c as u32;
    if v < 0x10000 {
        seq![v as u16]
    } else {
        seq![(0xD800 + (v - 0x10000) / 0x400) as u16, (0xDC00 + (v - 0x10000) % 0x400) as u16]
    }
}

/// The UTF-16 code units of a character sequence.
pub open spec fn encode_utf16(chars: Seq<char>) -> Seq<u16>
    decreases chars.len(),
{
    if chars.len() == 0 {
        seq![]
    } else {
        encode_char_utf16(chars[0]) + encode_utf16(chars.drop_first())
    }
}

/// The characters encoded by a UTF-16 code-unit sequence, or `None` when the
/// sequence contains an unpaired surrogate.
pub open spec fn decode_utf16(units: Seq<u16>) -> Option<Seq<char>>
    decreases units.len(),
{
    if units.len() == 0 {
        Some(seq![])
    } else if !is_high_surrogate(units[0]) && !is_low_surrogate(units[0]) {
        match decode_utf16(units.drop_first()) {
            Some(rest) => Some(seq![(units[0] as u32) as char] + rest),
            None => None,
        }
    } else if is_high_surrogate(units[0]) && units.len() >= 2 && is_low_surrogate(units[1]) {
        let v = (0x10000 + (units[0] - 0xD800) * 0x400 + (units[1] - 0xDC00)) as u32;
        match decode_utf16(units.skip(2)) {
            Some(rest) => Some(seq![v as char] + rest),
            None => None,
        }
    } else {
        None
    }
}

/// The big-endian byte serialization of a code-unit sequence.
pub open spec fn be_units_bytes(units: Seq<u16>) -> Seq<u8>
    decreases units.len(),
{
    if units.len() == 0 {
        seq![]
    } else {
        be16_bytes(units[0] as int) + be_units_bytes(units.drop_first())
    }
}

/// The code units read from consecutive big-endian byte pairs; a trailing odd
/// byte is ignored.
pub open spec fn units_of_be(bytes: Seq<u8>) -> Seq<u16>
    decreases bytes.len(),
{
    if bytes.len() < 2 {
        seq![]
    } else {
        seq![be16_val(bytes.subrange(0, 2)) as u16] + units_of_be(bytes.skip(2))
    }
}

/// Encoding distributes over concatenation of character sequences.
pub proof fn lemma_encode_utf16_concat(a: Seq<char>, b: Seq<char>)
    ensures
        encode_utf16(a + b) == encode_utf16(a) + encode_utf16(b),
    decreases a.len(),
{
    if a.len() == 0 {
        assert(a + b =~= b);
        assert(encode_utf16(a) + encode_utf16(b) =~= encode_utf16(b));
    } else {
        assert((a + b).drop_first() =~= a.drop_first() + b);
        lemma_encode_utf16_concat(a.drop_first(), b);
        assert((a + b).len() != 0);
        assert((a + b)[0] == a[0]);
        assert(encode_utf16(a + b) =~= encode_utf16(a) + encode_utf16(b));
    }
}

/// Serialization distributes over concatenation of unit sequences.
pub proof fn lemma_be_units_bytes_concat(a: Seq<u16>, b: Seq<u16>)
    ensures
        be_units_bytes(a + b) == be_units_bytes(a) + be_units_bytes(b),
    decreases a.len(),
{
    if a.len() == 0 {
        assert(a + b =~= b);
        assert(be_units_bytes(a) + be_units_bytes(b) =~= be_units_bytes(b));
    } else {
        assert((a + b).drop_first() =~= a.drop_first() + b);
        lemma_be_units_bytes_concat(a.drop_first(), b);
        assert((a + b)[0] == a[0]);
        assert(be_units_bytes(a + b) =~= be_units_bytes(a) + be_units_bytes(b));
    }
}

/// Reading byte pairs distributes over concatenation after an even-length
/// prefix.
pub proof fn lemma_units_of_be_concat(a: Seq<u8>, b: Seq<u8>)
    requires
        a.len() % 2 == 0,
    ensures
        units_of_be(a + b) == units_of_be(a) + units_of_be(b),
    decreases a.len(),
{
    if a.len() == 0 {
        assert(a + b =~= b);
        assert(units_of_be(a) + units_of_be(b) =~= units_of_be(b));
    } else {
        assert(a.len() >= 2);
        assert((a + b).subrange(0, 2) =~= a.subrange(0, 2));
        assert((a + b).skip(2) =~= a.skip(2) + b);
        assert(a.skip(2).len() % 2 == 0);
        lemma_units_of_be_concat(a.skip(2), b);
        assert(units_of_be(a + b) =~= units_of_be(a) + units_of_be(b));
    }
}

/// A unit sequence takes two bytes per unit, and reading the bytes back as
/// big-endian pairs restores the units.
pub proof fn lemma_units_be_round_trip(units: Seq<u16>)
    ensures
        be_units_bytes(units).len() == 2 * units.len(),
        units_of_be(be_units_bytes(units)) == units,
    decreases units.len(),
{
    if units.len() == 0 {
        assert(units_of_be(be_units_bytes(units)) =~= units);
    } else {
        crate::stream::lemma_be16_round_trip(units[0] as int);
        lemma_units_be_round_trip(units.drop_first());
        let bytes = be_units_bytes(units);
        assert(bytes.subrange(0, 2) =~= be16_bytes(units[0] as int));
        assert(bytes.skip(2) =~= be_units_bytes(units.drop_first()));
        assert(units_of_be(bytes) =~= units);
    }
}

/// Decoding the encoding of any character sequence restores the sequence.
pub proof fn lemma_utf16_round_trip(chars: Seq<char>)
    ensures
        decode_utf16(encode_utf16(chars)) == Some(chars),
    decreases chars.len(),
{
    if chars.len() == 0 {
        assert(decode_utf16(encode_utf16(chars)) == Some(Seq::<char>::empty()));
        assert(Seq::<char>::empty() =~= chars);
    } else {
        let c = chars[0];
        let v = c as u32;
        vstd::utf8::char_is_scalar(c);
        vstd::utf8::char_u32_cast(c, v);
        lemma_utf16_round_trip(chars.drop_first());
        let units = encode_utf16(chars);
        if v < 0x10000 {
            assert(units[0] == v as u16);
            assert(!is_high_surrogate(units[0]) && !is_low_surrogate(units[0]));
            assert(units.drop_first() =~= encode_utf16(chars.drop_first()));
            assert((units[0] as u32) == v);
            assert(seq![c] + chars.drop_first() =~= chars);
        } else {
            let w = v - 0x10000;
            lemma_multiply_divide_lt(w as int, 0x400, 0x400);
            lemma_fundamental_div_mod(w as int, 0x400);
            let hi = (0xD800 + w / 0x400) as u16;
            let lo = (0xDC00 + w % 0x400) as u16;
            assert(units[0] == hi && units[1] == lo);
            assert(is_high_surrogate(hi) && is_low_surrogate(lo));
            assert(units.skip(2) =~= encode_utf16(chars.drop_first()));
            assert((0x10000 + (hi - 0xD800) * 0x400 + (lo - 0xDC00)) as u32 == v);
            assert(seq![c] + chars.drop_first() =~= chars);
        }
    }
}

/// When every character needs only a single code unit, the unit count equals
/// the character count.
pub proof fn lemma_encode_utf16_single_units(chars: Seq<char>)
    requires
        forall|i: int| 0 <= i < chars.len() ==> (chars[i] as u32) < 0x10000,
    ensures
        encode_utf16(chars).len() == chars.len(),
    decreases chars.len(),
{
    if chars.len() > 0 {
        assert(forall|i: int|
            0 <= i < chars.drop_first().len() ==> (chars.drop_first()[i] as u32) < 0x10000);
        lemma_encode_utf16_single_units(chars.drop_first());
    }
}

/// Relies on `char::from_u32`: a 32-bit value converts to a `char` exactly
/// when it is a Unicode scalar value, and the conversion preserves the value.
pub assume_specification[ char::from_u32 ](i: u32) -> (r: Option<char>)
    ensures
        match r {
            Some(c) => is_scalar(i) && c as u32 == i,
            None => !is_scalar(i),
        },
;

/// Relies on `String::push`: appends the given character at the end.
pub assume_specification[ String::push ](s: &mut String, ch: char)
    ensures
        final(s)@ == old(s)@.push(ch),
;

/// Encodes the characters of `s` as UTF-16 code units.
pub fn encode_units(s: &str) -> (r: Vec<u16>)
    ensures
        r@ == encode_utf16(s@),
{
    let n = s.unicode_len();
    let mut units: Vec<u16> = Vec::new();
    let mut i: usize = 0;
    while i < n
        invariant
            n == s@.len(),
            i <= n,
            units@ == encode_utf16(s@.take(i as int)),
        decreases n - i,
    {
        let c = s.get_char(i);
        let v = c as u32;
        proof {
            vstd::utf8::char_is_scalar(c);
            assert(is_scalar(v));
        }
        if v < 0x10000 {
            units.push(v as u16);
        } else {
            let w = v - 0x10000;
            proof {
                lemma_multiply_divide_lt(w as int, 0x400, 0x400);
                lemma_fundamental_div_mod(w as int, 0x400);
            }
            units.push(0xD800u16 + ((w / 0x400) as u16));
            units.push(0xDC00u16 + ((w % 0x400) as u16));
        }
        proof {
            assert(s@.take(i + 1) =~= s@.take(i as int) + seq![c]);
            lemma_encode_utf16_concat(s@.take(i as int), seq![c]);
            assert(seq![c].drop_first() =~= Seq::<char>::empty());
            assert(encode_utf16(Seq::<char>::empty()) == Seq::<u16>::empty());
            assert(encode_utf16(seq![c]) == encode_char_utf16(c) + Seq::<u16>::empty());
            assert(encode_char_utf16(c) + Seq::<u16>::empty() =~= encode_char_utf16(c));
            assert(units@ =~= encode_utf16(s@.take(i as int)) + encode_char_utf16(c));
        }
        i = i + 1;
    }
    proof {
        assert(s@.take(n as int) =~= s@);
    }
    units
}

/// Decodes UTF-16 code units into a string; fails with an encoding error on
/// an unpaired surrogate.
pub fn decode_units(units: &Vec<u16>) -> (r: Result<String, Error>)
    ensures
        match r {
            Ok(s) => decode_utf16(units@) == Some(s@),
            Err(e) => decode_utf16(units@) is None && e.kind == ErrorKind::Encoding,
        },
{
    let mut out = String::new();
    let mut i: usize = 0;
    let n = units.len();
    proof {
        assert(units@.skip(0) =~= units@);
        if let Some(rest) = decode_utf16(units@) {
            assert(out@ + rest =~= rest);
        }
    }
    while i < n
        invariant
            n == units@.len(),
            i <= n,
            decode_utf16(units@) == (match decode_utf16(units@.skip(i as int)) {
                Some(rest) => Some(out@ + rest),
                None => None::<Seq<char>>,
            }),
        decreases n - i,
    {
        let ghost pending = units@.skip(i as int);
        let ghost out0 = out@;
        proof {
            assert(pending.len() != 0);
            assert(pending[0] == units@[i as int]);
        }
        let u = units[i];
        if !(0xD800 <= u && u <= 0xDFFF) {
            match char::from_u32(u as u32) {
                Some(c) => {
                    out.push(c);
                    proof {
                        vstd::utf8::char_u32_cast(c, u as u32);
                        assert(pending.drop_first() =~= units@.skip(i + 1));
                        assert(decode_utf16(pending) == (match decode_utf16(units@.skip(i + 1)) {
                            Some(rest) => Some(seq![c] + rest),
                            None => None::<Seq<char>>,
                        }));
                        if let Some(rest) = decode_utf16(units@.skip(i + 1)) {
                            assert(out0 + (seq![c] + rest) =~= out@ + rest);
                        }
                    }
                },
                None => {
                    proof {
                        assert(false);
                    }
                    return Err(Error::new(ErrorKind::Encoding, "invalid code unit"));
                },
            }
            i = i + 1;
        } else if u <= 0xDBFF && i + 1 < n && 0xDC00 <= units[i + 1] && units[i + 1] <= 0xDFFF {
            let u2 = units[i + 1];
            let v = 0x10000u32 + ((u - 0xD800) as u32) * 0x400 + ((u2 - 0xDC00) as u32);
            match char::from_u32(v) {
                Some(c) => {
                    out.push(c);
                    proof {
                        vstd::utf8::char_u32_cast(c, v);
                        assert(pending[1] == units@[i + 1]);
                        assert(pending.skip(2) =~= units@.skip(i + 2));
                        assert(decode_utf16(pending) == (match decode_utf16(units@.skip(i + 2)) {
                            Some(rest) => Some(seq![c] + rest),
                            None => None::<Seq<char>>,
                        }));
                        if let Some(rest) = decode_utf16(units@.skip(i + 2)) {
                            assert(out0 + (seq![c] + rest) =~= out@ + rest);
                        }
                    }
                },
                None => {
                    proof {
                        assert(false);
                    }
                    return Err(Error::new(ErrorKind::Encoding, "invalid code unit"));
                },
            }
            i = i + 2;
        } else {
            proof {
                assert(decode_utf16(pending) is None);
            }
            return Err(Error::new(ErrorKind::Encoding, "unpaired surrogate"));
        }
    }
    proof {
        assert(units@.skip(n as int) =~= Seq::<u16>::empty());
        if let Some(rest) = decode_utf16(units@.skip(n as int)) {
            assert(out@ + rest =~= out@);
        }
    }
    Ok(out)
}

} // verus!

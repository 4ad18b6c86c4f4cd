//! The typed value codec: decoding a byte range into a typed value according
//! to the well-known type-code table, and encoding a typed value back to
//! bytes, optionally behind a type/locale sub-header.

use crate::error::{Error, ErrorKind};
use crate::stream::{be32_val, zeros, Reader, Writer};
use crate::utf16::{
    be_units_bytes, decode_utf16, encode_utf16, lemma_be_units_bytes_concat,
    lemma_encode_utf16_single_units, lemma_units_be_round_trip, lemma_units_of_be_concat,
    lemma_utf16_round_trip, units_of_be,
};
use vstd::arithmetic::div_mod::lemma_fundamental_div_mod;
use vstd::prelude::*;
use vstd::string::StrSliceExecFns;
use vstd::utf8::{decode_utf8, encode_utf8, valid_utf8};

verus! {

// Codes of the well-known data type table. Only `RESERVED`, `UTF8`, `UTF16`,
// `JPEG` and `PNG` are decodable here; the rest are recognized identifiers.
pub const TYPED: i32 = -1;

pub const RESERVED: i32 = 0;

pub const UTF8: i32 = 1;

pub const UTF16: i32 = 2;

pub const UTF8SORT: i32 = 4;

pub const UTF16SORT: i32 = 5;

pub const JPEG: i32 = 13;

pub const PNG: i32 = 14;

pub const BESIGNED: i32 = 21;

pub const BEUNSIGNED: i32 = 22;

pub const BEFLOAT32: i32 = 23;

pub const BEFLOAT64: i32 = 24;

pub const QTMETA: i32 = 28;

pub const EIGHTBITSIGNED: i32 = 65;

pub const BE16BITSIGNED: i32 = 66;

pub const BE32BITSIGNED: i32 = 67;

pub const BEPOINTF32: i32 = 70;

pub const BEDIMSF32: i32 = 71;

pub const BERECTF32: i32 = 72;

pub const BE64SIGNED: i32 = 74;

pub const EIGHTBITUNSIGNED: i32 = 75;

pub const BE16BITUNSIGNED: i32 = 76;

pub const BE32BITUNSIGNED: i32 = 77;

pub const BE64BITUNSIGNED: i32 = 78;

pub const AFFINETRANSFORMF64: i32 = 79;

/// The raw 32-bit wire pattern (two's complement) of a signed type code.
pub open spec fn code_bits(code: i32) -> u32 {
    if code >= 0 {
        code as u32
    } else {
        (code + 0x100000000) as u32
    }
}

/// The raw wire pattern of the `TYPED` sentinel.
pub const TYPED_RAW: u32 = 0xFFFF_FFFF;

/// The codes this core can decode a payload with.
pub open spec fn supported_code(bits: u32) -> bool {
    ||| bits == code_bits(RESERVED)
    ||| bits == code_bits(UTF8)
    ||| bits == code_bits(UTF16)
    ||| bits == code_bits(JPEG)
    ||| bits == code_bits(PNG)
}

/// The different types of data an atom can hold, following the well-known
/// data type table.
#[derive(Clone, Debug)]
pub enum Data {
    /// Reserved type data, carried as opaque bytes.
    Reserved(Vec<u8>),
    /// A string decoded from UTF-8.
    Utf8(String),
    /// A string decoded from big-endian UTF-16.
    Utf16(String),
    /// Opaque JPEG bytes.
    Jpeg(Vec<u8>),
    /// Opaque PNG bytes.
    Png(Vec<u8>),
    /// A pending raw type code whose data is yet to be parsed.
    Unparsed(u32),
}

/// The type code a resolved value encodes with.
pub open spec fn data_code(d: Data) -> i32
    recommends
        !(d is Unparsed),
{
    match d {
        Data::Reserved(_) => RESERVED,
        Data::Utf8(_) => UTF8,
        Data::Utf16(_) => UTF16,
        Data::Jpeg(_) => JPEG,
        Data::Png(_) => PNG,
        Data::Unparsed(_) => TYPED,
    }
}

/// The declared length in bytes of a value. For UTF-16 this is twice the
/// character count, whether or not a character needs a surrogate pair.
pub open spec fn data_len(d: Data) -> nat {
    match d {
        Data::Reserved(v) => v@.len(),
        Data::Utf8(s) => encode_utf8(s@).len(),
        Data::Utf16(s) => 2 * s@.len(),
        Data::Jpeg(v) => v@.len(),
        Data::Png(v) => v@.len(),
        Data::Unparsed(_) => 0,
    }
}

/// The bytes `write_raw` emits for a resolved value.
pub open spec fn data_bytes(d: Data) -> Seq<u8>
    recommends
        !(d is Unparsed),
{
    match d {
        Data::Reserved(v) => v@,
        Data::Utf8(s) => encode_utf8(s@),
        Data::Utf16(s) => be_units_bytes(encode_utf16(s@)),
        Data::Jpeg(v) => v@,
        Data::Png(v) => v@,
        Data::Unparsed(_) => Seq::<u8>::empty(),
    }
}

/// The bytes `write_typed` emits: the big-endian type code, four zero locale
/// bytes, then the raw payload.
pub open spec fn typed_bytes(d: Data) -> Seq<u8>
    recommends
        !(d is Unparsed),
{
    crate::stream::be32_bytes(code_bits(data_code(d)) as int) + zeros(4) + data_bytes(d)
}

/// Whether decoding a payload with the given code succeeds.
pub open spec fn decode_ok(bits: u32, payload: Seq<u8>) -> bool {
    &&& supported_code(bits)
    &&& (bits == code_bits(UTF8) ==> valid_utf8(payload))
    &&& (bits == code_bits(UTF16) ==> decode_utf16(units_of_be(payload)) is Some)
}

/// The value decoding a payload with the given code produces. For UTF-16 a
/// trailing odd byte of the payload is padding and is not decoded.
pub open spec fn decodes_to(bits: u32, payload: Seq<u8>, d: Data) -> bool {
    match d {
        Data::Reserved(v) => bits == code_bits(RESERVED) && v@ == payload,
        Data::Utf8(s) => bits == code_bits(UTF8) && valid_utf8(payload) && s@ == decode_utf8(
            payload,
        ),
        Data::Utf16(s) => bits == code_bits(UTF16) && decode_utf16(units_of_be(payload)) == Some(
            s@,
        ),
        Data::Jpeg(v) => bits == code_bits(JPEG) && v@ == payload,
        Data::Png(v) => bits == code_bits(PNG) && v@ == payload,
        Data::Unparsed(_) => false,
    }
}

/// Whether a stored code announces the eight-byte type sub-header.
pub open spec fn is_typed_bits(bits: u32) -> bool {
    bits == code_bits(TYPED)
}

/// Where the payload starts, once a possible sub-header is consumed.
pub open spec fn body_pos(bits: u32, p: int) -> int {
    if is_typed_bits(bits) {
        p + 8
    } else {
        p
    }
}

/// What is left of the declared length, once a possible sub-header is
/// consumed.
pub open spec fn body_len(bits: u32, n: int) -> int {
    if is_typed_bits(bits) {
        n - 8
    } else {
        n
    }
}

/// The effective type code: read from the sub-header for `TYPED`, the stored
/// code itself otherwise.
pub open spec fn eff_bits(bits: u32, b: Seq<u8>, p: int) -> u32 {
    if is_typed_bits(bits) {
        be32_val(b.subrange(p, p + 4)) as u32
    } else {
        bits
    }
}

/// Whether a decode attempt on buffer `b` at position `p` with declared
/// length `n` runs to success.
pub open spec fn parse_ok(bits: u32, b: Seq<u8>, p: int, n: int) -> bool {
    &&& (is_typed_bits(bits) ==> n > 8 && p + 8 <= b.len())
    &&& body_pos(bits, p) + body_len(bits, n) <= b.len()
    &&& decode_ok(
        eff_bits(bits, b, p),
        b.subrange(body_pos(bits, p), body_pos(bits, p) + body_len(bits, n)),
    )
}

/// Which error a failing decode attempt reports.
pub open spec fn parse_err_kind(bits: u32, b: Seq<u8>, p: int, n: int) -> ErrorKind {
    if is_typed_bits(bits) && n <= 8 {
        ErrorKind::Parsing
    } else if is_typed_bits(bits) && p + 8 > b.len() {
        ErrorKind::Io
    } else {
        let e = eff_bits(bits, b, p);
        if !supported_code(e) {
            ErrorKind::UnknownDataType(e)
        } else if body_pos(bits, p) + body_len(bits, n) > b.len() {
            ErrorKind::Io
        } else {
            ErrorKind::Encoding
        }
    }
}

/// Where the cursor stands after a failing decode attempt.
pub open spec fn parse_fail_pos(bits: u32, b: Seq<u8>, p: int, n: int) -> int {
    if is_typed_bits(bits) && (n <= 8 || p + 8 > b.len()) {
        p
    } else {
        let e = eff_bits(bits, b, p);
        if !supported_code(e) {
            body_pos(bits, p)
        } else if body_pos(bits, p) + body_len(bits, n) > b.len() {
            body_pos(bits, p)
        } else {
            body_pos(bits, p) + body_len(bits, n)
        }
    }
}

/// Everything `Data::parse` promises: `pre` and `post` are the value before
/// and after, `b` the buffer, `p` the starting and `q` the final cursor
/// position, `n` the declared length, and `r` the outcome.
pub open spec fn data_parse_post(
    pre: Data,
    post: Data,
    b: Seq<u8>,
    p: int,
    n: int,
    q: int,
    r: Result<(), Error>,
) -> bool {
    &&& (!(pre is Unparsed) ==> (r matches Err(e) && e.kind == ErrorKind::Parsing) && post == pre
        && q == p)
    &&& (pre matches Data::Unparsed(bits) ==> {
        &&& (r is Ok <==> parse_ok(bits, b, p, n))
        &&& (r is Ok ==> decodes_to(
            eff_bits(bits, b, p),
            b.subrange(body_pos(bits, p), body_pos(bits, p) + body_len(bits, n)),
            post,
        ) && q == p + n)
        &&& (r matches Err(e) ==> post == pre && e.kind == parse_err_kind(bits, b, p, n) && q
            == parse_fail_pos(bits, b, p, n))
    })
}

/// Declares `std::string::FromUtf8Error` so that `String::from_utf8` can be
/// given a specification; nothing is assumed about the error's contents.
#[verifier::external_type_specification]
#[verifier::external_body]
pub struct ExFromUtf8Error(std::string::FromUtf8Error);

/// Relies on `String::from_utf8`: it succeeds exactly on valid UTF-8, and the
/// returned string then holds exactly the given bytes, so its characters are
/// their decoding.
pub assume_specification[ String::from_utf8 ](bytes: Vec<u8>) -> (r: Result<
    String,
    std::string::FromUtf8Error,
>)
    ensures
        match r {
            Ok(s) => valid_utf8(bytes@) && s@ == decode_utf8(bytes@),
            Err(_) => !valid_utf8(bytes@),
        },
;

impl Data {
    /// Returns the declared length in bytes.
    pub fn len(&self) -> (r: usize)
        requires
            data_len(*self) <= usize::MAX,
        ensures
            r == data_len(*self),
    {
        match self {
            Data::Reserved(v) => v.len(),
            Data::Utf8(s) => s.as_str().len(),
            Data::Utf16(s) => 2 * s.as_str().unicode_len(),
            Data::Jpeg(v) => v.len(),
            Data::Png(v) => v.len(),
            Data::Unparsed(_) => 0,
        }
    }

    /// Reads exactly `length` bytes from the reader.
    pub fn read_u8_vec(reader: &mut Reader, length: usize) -> (r: Result<Vec<u8>, Error>)
        requires
            old(reader).wf(),
        ensures
            final(reader).wf(),
            final(reader).buf@ == old(reader).buf@,
            match r {
                Ok(v) => {
                    &&& old(reader).pos + length <= old(reader).buf@.len()
                    &&& v@ == old(reader).buf@.subrange(
                        old(reader).pos as int,
                        old(reader).pos + length,
                    )
                    &&& final(reader).pos == old(reader).pos + length
                },
                Err(e) => {
                    &&& old(reader).pos + length > old(reader).buf@.len()
                    &&& e.kind == ErrorKind::Io
                    &&& final(reader).pos == old(reader).pos
                },
            },
    {
        reader.read_exact(length)
    }

    /// Reads `length` big-endian 16-bit code units from the reader.
    pub fn read_u16_vec(reader: &mut Reader, length: usize) -> (r: Result<Vec<u16>, Error>)
        requires
            old(reader).wf(),
        ensures
            final(reader).wf(),
            final(reader).buf@ == old(reader).buf@,
            ({
                let b = old(reader).buf@;
                let p = old(reader).pos as int;
                match r {
                    Ok(v) => {
                        &&& p + 2 * (length as int) <= b.len()
                        &&& v@ == units_of_be(b.subrange(p, p + 2 * (length as int)))
                        &&& final(reader).pos == p + 2 * (length as int)
                    },
                    Err(e) => {
                        &&& p + 2 * (length as int) > b.len()
                        &&& e.kind == ErrorKind::Io
                        &&& final(reader).pos == p
                    },
                }
            }),
    {
        let rem = reader.remaining();
        if length > rem / 2 {
            proof {
                lemma_fundamental_div_mod(rem as int, 2);
            }
            return Err(Error::new(ErrorKind::Io, "unexpected end of data"));
        }
        proof {
            lemma_fundamental_div_mod(rem as int, 2);
        }
        let ghost b = reader.buf@;
        let ghost p = reader.pos as int;
        let mut v: Vec<u16> = Vec::new();
        let mut j: usize = 0;
        while j < length
            invariant
                reader.wf(),
                reader.buf@ == b,
                reader.pos == p + 2 * j,
                0 <= p,
                j <= length,
                p + 2 * (length as int) <= b.len(),
                v@ == units_of_be(b.subrange(p, p + 2 * j)),
            decreases length - j,
        {
            let u = match reader.read_be_u16() {
                Ok(u) => u,
                Err(_) => {
                    proof {
                        assert(false);
                    }
                    return Err(Error::new(ErrorKind::Io, "unexpected end of data"));
                },
            };
            v.push(u);
            proof {
                assert(0 <= p && p + 2 * j + 2 <= b.len());
                let pref = b.subrange(p, p + 2 * j);
                let pair = b.subrange(p + 2 * j, p + 2 * j + 2);
                assert(pref.len() == 2 * j && pair.len() == 2);
                assert(pref + pair =~= b.subrange(p, p + 2 * j + 2));
                assert(2 * ((j + 1) as int) == 2 * j + 2);
                lemma_units_of_be_concat(pref, pair);
                assert(pair.subrange(0, 2) =~= pair);
                assert(pair.skip(2) =~= Seq::<u8>::empty());
                assert(units_of_be(Seq::<u8>::empty()) == Seq::<u16>::empty());
                assert(units_of_be(pair) =~= seq![u]);
                assert(v@ =~= units_of_be(b.subrange(p, p + 2 * j + 2)));
            }
            j = j + 1;
        }
        Ok(v)
    }

    /// Reads `length` bytes and decodes them as UTF-8.
    pub fn read_utf8(reader: &mut Reader, length: usize) -> (r: Result<String, Error>)
        requires
            old(reader).wf(),
        ensures
            final(reader).wf(),
            final(reader).buf@ == old(reader).buf@,
            ({
                let b = old(reader).buf@;
                let p = old(reader).pos as int;
                let n = length as int;
                match r {
                    Ok(s) => {
                        &&& p + n <= b.len()
                        &&& valid_utf8(b.subrange(p, p + n))
                        &&& s@ == decode_utf8(b.subrange(p, p + n))
                        &&& final(reader).pos == p + n
                    },
                    Err(e) => {
                        ||| (p + n > b.len() && e.kind == ErrorKind::Io && final(reader).pos == p)
                        ||| (p + n <= b.len() && !valid_utf8(b.subrange(p, p + n)) && e.kind
                            == ErrorKind::Encoding && final(reader).pos == p + n)
                    },
                }
            }),
    {
        let data = match Data::read_u8_vec(reader, length) {
            Ok(v) => v,
            Err(e) => { return Err(e) },
        };
        match String::from_utf8(data) {
            Ok(s) => Ok(s),
            Err(_) => Err(Error::new(ErrorKind::Encoding, "invalid utf-8 data")),
        }
    }

    /// Reads a `length` byte UTF-16 payload: `length / 2` big-endian code
    /// units, then one padding byte when `length` is odd.
    pub fn read_utf16(reader: &mut Reader, length: usize) -> (r: Result<String, Error>)
        requires
            old(reader).wf(),
        ensures
            final(reader).wf(),
            final(reader).buf@ == old(reader).buf@,
            ({
                let b = old(reader).buf@;
                let p = old(reader).pos as int;
                let n = length as int;
                match r {
                    Ok(s) => {
                        &&& p + n <= b.len()
                        &&& decode_utf16(units_of_be(b.subrange(p, p + n))) == Some(s@)
                        &&& final(reader).pos == p + n
                    },
                    Err(e) => {
                        ||| (p + n > b.len() && e.kind == ErrorKind::Io && final(reader).pos == p)
                        ||| (p + n <= b.len() && decode_utf16(units_of_be(b.subrange(p, p + n)))
                            is None && e.kind == ErrorKind::Encoding && final(reader).pos == p + n)
                    },
                }
            }),
    {
        let ghost b = reader.buf@;
        let ghost p = reader.pos as int;
        if reader.remaining() < length {
            return Err(Error::new(ErrorKind::Io, "unexpected end of data"));
        }
        proof {
            lemma_fundamental_div_mod(length as int, 2);
        }
        let units = match Data::read_u16_vec(reader, length / 2) {
            Ok(u) => u,
            Err(_) => {
                proof {
                    assert(false);
                }
                return Err(Error::new(ErrorKind::Io, "unexpected end of data"));
            },
        };
        if length % 2 == 1 {
            match reader.skip(1) {
                Ok(()) => {},
                Err(_) => {
                    proof {
                        assert(false);
                    }
                    return Err(Error::new(ErrorKind::Io, "unexpected end of data"));
                },
            }
        }
        proof {
            let k = (length as int) / 2;
            let even = b.subrange(p, p + 2 * k);
            if length % 2 == 1 {
                let pad = b.subrange(p + 2 * k, p + length as int);
                assert(even + pad =~= b.subrange(p, p + length as int));
                lemma_units_of_be_concat(even, pad);
                assert(pad.len() == 1);
                assert(units_of_be(pad) =~= Seq::<u16>::empty());
                assert(units@ + Seq::<u16>::empty() =~= units@);
            } else {
                assert(even =~= b.subrange(p, p + length as int));
            }
            assert(units@ == units_of_be(b.subrange(p, p + length as int)));
        }
        match crate::utf16::decode_units(&units) {
            Ok(s) => Ok(s),
            Err(e) => Err(e),
        }
    }

    /// Attempts to parse a pending value in place from the reader, resolving
    /// it according to its stored type code and the declared byte length.
    pub fn parse(&mut self, reader: &mut Reader, length: usize) -> (r: Result<(), Error>)
        requires
            old(reader).wf(),
        ensures
            final(reader).wf(),
            final(reader).buf@ == old(reader).buf@,
            data_parse_post(
                *old(self),
                *final(self),
                old(reader).buf@,
                old(reader).pos as int,
                length as int,
                final(reader).pos as int,
                r,
            ),
    {
        let bits: u32 = match self {
            Data::Unparsed(d) => *d,
            _ => {
                return Err(Error::new(ErrorKind::Parsing, "data already parsed"));
            },
        };
        let ghost b = reader.buf@;
        let ghost p = reader.pos as int;
        let mut eff = bits;
        let mut l = length;
        if bits == TYPED_RAW {
            if length <= 8 {
                return Err(Error::new(ErrorKind::Parsing, "typed data head too short"));
            }
            if reader.remaining() < 8 {
                return Err(Error::new(ErrorKind::Io, "unexpected end of data"));
            }
            eff = match reader.read_be_u32() {
                Ok(e) => e,
                Err(_) => {
                    proof {
                        assert(false);
                    }
                    return Err(Error::new(ErrorKind::Io, "unexpected end of data"));
                },
            };
            // skipping the 4 byte locale field
            match reader.skip(4) {
                Ok(()) => {},
                Err(_) => {
                    proof {
                        assert(false);
                    }
                    return Err(Error::new(ErrorKind::Io, "unexpected end of data"));
                },
            }
            l = length - 8;
        }
        proof {
            assert(eff == eff_bits(bits, b, p));
            assert(reader.pos == body_pos(bits, p));
            assert(l == body_len(bits, length as int));
        }
        if eff == (RESERVED as u32) {
            match Data::read_u8_vec(reader, l) {
                Ok(v) => {
                    *self = Data::Reserved(v);
                    Ok(())
                },
                Err(e) => Err(e),
            }
        } else if eff == (UTF8 as u32) {
            match Data::read_utf8(reader, l) {
                Ok(s) => {
                    *self = Data::Utf8(s);
                    Ok(())
                },
                Err(e) => Err(e),
            }
        } else if eff == (UTF16 as u32) {
            match Data::read_utf16(reader, l) {
                Ok(s) => {
                    *self = Data::Utf16(s);
                    Ok(())
                },
                Err(e) => Err(e),
            }
        } else if eff == (JPEG as u32) {
            match Data::read_u8_vec(reader, l) {
                Ok(v) => {
                    *self = Data::Jpeg(v);
                    Ok(())
                },
                Err(e) => Err(e),
            }
        } else if eff == (PNG as u32) {
            match Data::read_u8_vec(reader, l) {
                Ok(v) => {
                    *self = Data::Png(v);
                    Ok(())
                },
                Err(e) => Err(e),
            }
        } else {
            Err(Error::new(ErrorKind::UnknownDataType(eff), "unknown datatype code"))
        }
    }

    /// Attempts to write the raw payload bytes (no header) to the writer.
    pub fn write_raw(&self, writer: &mut Writer) -> (r: Result<(), Error>)
        ensures
            match r {
                Ok(()) => !((*self) is Unparsed) && final(writer).buf@ == old(writer).buf@
                    + data_bytes(*self),
                Err(e) => (*self) is Unparsed && e.kind == ErrorKind::UnwritableDataType
                    && final(writer).buf@ == old(writer).buf@,
            },
    {
        match self {
            Data::Reserved(v) => {
                writer.write_bytes(v);
                Ok(())
            },
            Data::Utf8(s) => {
                let bytes = s.as_str().as_bytes_vec();
                writer.write_bytes(&bytes);
                Ok(())
            },
            Data::Utf16(s) => {
                let units = crate::utf16::encode_units(s.as_str());
                let ghost w0 = writer.buf@;
                let mut j: usize = 0;
                while j < units.len()
                    invariant
                        j <= units@.len(),
                        writer.buf@ == w0 + be_units_bytes(units@.take(j as int)),
                    decreases units@.len() - j,
                {
                    let u = units[j];
                    writer.write_be_u16(u);
                    proof {
                        assert(units@.take(j + 1) =~= units@.take(j as int) + seq![u]);
                        lemma_be_units_bytes_concat(units@.take(j as int), seq![u]);
                        assert(seq![u].drop_first() =~= Seq::<u16>::empty());
                        assert(be_units_bytes(Seq::<u16>::empty()) == Seq::<u8>::empty());
                        assert(be_units_bytes(seq![u]) =~= crate::stream::be16_bytes(u as int));
                        assert(writer.buf@ =~= w0 + be_units_bytes(units@.take(j + 1)));
                    }
                    j = j + 1;
                }
                proof {
                    assert(units@.take(units@.len() as int) =~= units@);
                }
                Ok(())
            },
            Data::Jpeg(v) => {
                writer.write_bytes(v);
                Ok(())
            },
            Data::Png(v) => {
                writer.write_bytes(v);
                Ok(())
            },
            Data::Unparsed(_) => Err(
                Error::new(ErrorKind::UnwritableDataType, "unparsed data cannot be written"),
            ),
        }
    }

    /// Attempts to write the typed payload to the writer: the big-endian type
    /// code, four zero locale bytes, then the raw payload.
    pub fn write_typed(&self, writer: &mut Writer) -> (r: Result<(), Error>)
        ensures
            match r {
                Ok(()) => !((*self) is Unparsed) && final(writer).buf@ == old(writer).buf@
                    + typed_bytes(*self),
                Err(e) => (*self) is Unparsed && e.kind == ErrorKind::UnwritableDataType
                    && final(writer).buf@ == old(writer).buf@,
            },
    {
        let code: i32 = match self {
            Data::Reserved(_) => RESERVED,
            Data::Utf8(_) => UTF8,
            Data::Utf16(_) => UTF16,
            Data::Jpeg(_) => JPEG,
            Data::Png(_) => PNG,
            Data::Unparsed(_) => {
                return Err(
                    Error::new(ErrorKind::UnwritableDataType, "unparsed data cannot be written"),
                );
            },
        };
        let ghost w0 = writer.buf@;
        writer.write_be_u32(code as u32);
        writer.write_be_u32(0);
        proof {
            assert(crate::stream::be32_bytes(0) =~= zeros(4));
        }
        match self.write_raw(writer) {
            Ok(()) => {
                proof {
                    assert(writer.buf@ =~= w0 + typed_bytes(*self));
                }
                Ok(())
            },
            Err(_) => {
                proof {
                    assert(false);
                }
                Err(Error::new(ErrorKind::UnwritableDataType, "unparsed data cannot be written"))
            },
        }
    }
}

/// Decoding the bytes a resolved value writes, with the value's own type
/// code, succeeds and reproduces the value.
pub proof fn lemma_data_bytes_decode(d: Data)
    requires
        !(d is Unparsed),
    ensures
        decode_ok(code_bits(data_code(d)), data_bytes(d)),
        decodes_to(code_bits(data_code(d)), data_bytes(d), d),
{
    match d {
        Data::Utf8(s) => {
            vstd::utf8::encode_utf8_valid_utf8(s@);
            vstd::utf8::encode_utf8_decode_utf8(s@);
        },
        Data::Utf16(s) => {
            lemma_units_be_round_trip(encode_utf16(s@));
            lemma_utf16_round_trip(s@);
        },
        _ => {},
    }
}

/// Two values decoding from the same payload under the same code are equal:
/// together with the round-trip laws, whatever `parse` resolves from an
/// encoded value is equal to the value that was encoded.
pub proof fn lemma_decode_deterministic(bits: u32, payload: Seq<u8>, d1: Data, d2: Data)
    requires
        decodes_to(bits, payload, d1),
        decodes_to(bits, payload, d2),
    ensures
        data_eq(d1, d2),
{
}

/// Law: for a byte-carrying or UTF-8 value, the raw encoding has exactly the
/// declared length, and decoding it back with the value's own type code
/// succeeds and reproduces an equal value.
pub proof fn lemma_raw_round_trip(d: Data)
    requires
        d is Reserved || d is Utf8 || d is Jpeg || d is Png,
    ensures
        data_len(d) == data_bytes(d).len(),
        decode_ok(code_bits(data_code(d)), data_bytes(d)),
        decodes_to(code_bits(data_code(d)), data_bytes(d), d),
{
    lemma_data_bytes_decode(d);
}

/// Law: a UTF-16 value whose characters all fit in single code units encodes
/// to exactly its declared length (twice the character count), and decoding
/// those bytes with the UTF-16 code reproduces an equal value.
pub proof fn lemma_utf16_single_unit_round_trip(d: Data)
    requires
        d matches Data::Utf16(s) && (forall|i: int| 0 <= i < s@.len() ==> (s@[i] as u32) < 0x10000),
    ensures
        data_len(d) == data_bytes(d).len(),
        decode_ok(code_bits(data_code(d)), data_bytes(d)),
        decodes_to(code_bits(data_code(d)), data_bytes(d), d),
{
    lemma_data_bytes_decode(d);
    match d {
        Data::Utf16(s) => {
            lemma_encode_utf16_single_units(s@);
            lemma_units_be_round_trip(encode_utf16(s@));
        },
        _ => {},
    }
}

/// Law: with an odd payload length the final byte is padding. Decoding sees
/// exactly the code units of the even-length prefix, so the extra byte is
/// consumed without altering the decoded text.
pub proof fn lemma_utf16_odd_padding(payload: Seq<u8>)
    requires
        payload.len() % 2 == 1,
    ensures
        units_of_be(payload) == units_of_be(payload.take(payload.len() - 1)),
        forall|d: Data| #[trigger]
            decodes_to(code_bits(UTF16), payload, d) <==> decodes_to(
                code_bits(UTF16),
                payload.take(payload.len() - 1),
                d,
            ),
{
    let even = payload.take(payload.len() - 1);
    let pad = payload.skip(payload.len() - 1);
    assert(even + pad =~= payload);
    lemma_units_of_be_concat(even, pad);
    assert(units_of_be(pad) =~= Seq::<u16>::empty());
    assert(units_of_be(even) + Seq::<u16>::empty() =~= units_of_be(even));
}

/// Law: the typed encoding is the eight-byte sub-header followed by the raw
/// payload; decoding it back as `TYPED` data with the written length finds
/// the value's own code in the sub-header and reproduces an equal value.
/// The payload must not be empty: a typed payload of only eight bytes is
/// rejected as a short sub-header.
pub proof fn lemma_typed_round_trip(d: Data)
    requires
        !(d is Unparsed),
        data_bytes(d).len() > 0,
    ensures
        typed_bytes(d).len() == 8 + data_bytes(d).len(),
        parse_ok(code_bits(TYPED), typed_bytes(d), 0, typed_bytes(d).len() as int),
        eff_bits(code_bits(TYPED), typed_bytes(d), 0) == code_bits(data_code(d)),
        typed_bytes(d).skip(8) == data_bytes(d),
        decodes_to(code_bits(data_code(d)), typed_bytes(d).skip(8), d),
{
    let code = code_bits(data_code(d)) as int;
    crate::stream::lemma_be32_round_trip(code);
    let t = typed_bytes(d);
    assert(t.subrange(0, 4) =~= crate::stream::be32_bytes(code));
    assert(t.skip(8) =~= data_bytes(d));
    lemma_data_bytes_decode(d);
    assert(t.subrange(8, t.len() as int) =~= data_bytes(d));
}

/// Variant-aware equality of data values: equal only when both hold the same
/// variant and the contents agree.
pub open spec fn data_eq(a: Data, b: Data) -> bool {
    match (a, b) {
        (Data::Reserved(x), Data::Reserved(y)) => x@ == y@,
        (Data::Utf8(x), Data::Utf8(y)) => x@ == y@,
        (Data::Utf16(x), Data::Utf16(y)) => x@ == y@,
        (Data::Jpeg(x), Data::Jpeg(y)) => x@ == y@,
        (Data::Png(x), Data::Png(y)) => x@ == y@,
        (Data::Unparsed(x), Data::Unparsed(y)) => x == y,
        _ => false,
    }
}

/// Compares two byte vectors by contents.
fn bytes_eq(a: &Vec<u8>, b: &Vec<u8>) -> (r: bool)
    ensures
        r == (a@ == b@),
{
    if a.len() != b.len() {
        return false;
    }
    let mut i: usize = 0;
    while i < a.len()
        invariant
            i <= a@.len(),
            a@.len() == b@.len(),
            forall|k: int| 0 <= k < i ==> a@[k] == b@[k],
        decreases a@.len() - i,
    {
        if a[i] != b[i] {
            return false;
        }
        i = i + 1;
    }
    proof {
        assert(a@ =~= b@);
    }
    true
}

impl PartialEq for Data {
    fn eq(&self, other: &Self) -> (r: bool) {
        match (self, other) {
            (Data::Reserved(x), Data::Reserved(y)) => bytes_eq(x, y),
            (Data::Utf8(x), Data::Utf8(y)) => *x == *y,
            (Data::Utf16(x), Data::Utf16(y)) => *x == *y,
            (Data::Jpeg(x), Data::Jpeg(y)) => bytes_eq(x, y),
            (Data::Png(x), Data::Png(y)) => bytes_eq(x, y),
            (Data::Unparsed(x), Data::Unparsed(y)) => *x == *y,
            _ => false,
        }
    }
}

impl vstd::std_specs::cmp::PartialEqSpecImpl for Data {
    open spec fn obeys_eq_spec() -> bool {
        true
    }

    open spec fn eq_spec(&self, other: &Data) -> bool {
        data_eq(*self, *other)
    }
}

} // verus!

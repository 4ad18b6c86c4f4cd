use mp4ameta::data::{JPEG, PNG, RESERVED, TYPED, UTF16, UTF8};
use mp4ameta::{Data, ErrorKind, Reader, Writer};

fn encode_raw(d: &Data) -> Vec<u8> {
    let mut w = Writer::new();
    d.write_raw(&mut w).unwrap();
    w.into_vec()
}

fn decode(code: u32, bytes: Vec<u8>, length: usize) -> Result<Data, ErrorKind> {
    let mut r = Reader::new(bytes);
    let mut d = Data::Unparsed(code);
    match d.parse(&mut r, length) {
        Ok(()) => Ok(d),
        Err(e) => Err(e.kind),
    }
}

#[test]
fn reserved_round_trip() {
    let d = Data::Reserved(vec![1, 2, 3, 4, 5]);
    let bytes = encode_raw(&d);
    assert_eq!(bytes, vec![1, 2, 3, 4, 5]);
    assert_eq!(d.len(), 5);
    let back = decode(RESERVED as u32, bytes, 5).unwrap();
    assert_eq!(back, d);
}

#[test]
fn utf8_round_trip() {
    let d = Data::Utf8(String::from("grüße"));
    let bytes = encode_raw(&d);
    let l = bytes.len();
    assert_eq!(d.len(), l);
    let back = decode(UTF8 as u32, bytes, l).unwrap();
    assert_eq!(back, d);
}

#[test]
fn jpeg_round_trip() {
    let d = Data::Jpeg(vec![0xFF, 0xD8, 0xFF, 0xE0]);
    let bytes = encode_raw(&d);
    assert_eq!(d.len(), 4);
    let back = decode(JPEG as u32, bytes, 4).unwrap();
    assert_eq!(back, d);
}

#[test]
fn png_round_trip() {
    let d = Data::Png(vec![0x89, 0x50, 0x4E, 0x47]);
    let bytes = encode_raw(&d);
    assert_eq!(d.len(), 4);
    let back = decode(PNG as u32, bytes, 4).unwrap();
    assert_eq!(back, d);
}

#[test]
fn utf16_single_unit_round_trip() {
    let text = String::from("hällo");
    let count = text.chars().count();
    let d = Data::Utf16(text);
    let bytes = encode_raw(&d);
    assert_eq!(bytes.len(), 2 * count);
    assert_eq!(d.len(), 2 * count);
    let back = decode(UTF16 as u32, bytes, 2 * count).unwrap();
    assert_eq!(back, d);
}

#[test]
fn utf16_big_endian_layout() {
    let d = Data::Utf16(String::from("ab"));
    assert_eq!(encode_raw(&d), vec![0x00, 0x61, 0x00, 0x62]);
}

#[test]
fn utf16_surrogate_pair_round_trip() {
    // U+1D11E needs a surrogate pair: two code units, four bytes on the wire,
    // while the declared length counts the character once.
    let d = Data::Utf16(String::from("\u{1D11E}"));
    let bytes = encode_raw(&d);
    assert_eq!(bytes, vec![0xD8, 0x34, 0xDD, 0x1E]);
    assert_eq!(d.len(), 2);
    let back = decode(UTF16 as u32, bytes, 4).unwrap();
    assert_eq!(back, d);
}

#[test]
fn utf16_odd_length_skips_padding() {
    // two code units plus one trailing padding byte; the pad byte is
    // consumed but never decoded
    let bytes = vec![0x00, 0x61, 0x00, 0x62, 0x99, 0x77];
    let mut r = Reader::new(bytes);
    let mut d = Data::Unparsed(UTF16 as u32);
    d.parse(&mut r, 5).unwrap();
    assert_eq!(d, Data::Utf16(String::from("ab")));
    assert_eq!(r.remaining(), 1);
}

#[test]
fn typed_round_trip() {
    let d = Data::Utf8(String::from("hi"));
    let mut w = Writer::new();
    d.write_typed(&mut w).unwrap();
    let bytes = w.into_vec();
    assert_eq!(bytes, vec![0, 0, 0, 1, 0, 0, 0, 0, 0x68, 0x69]);
    let l = bytes.len();
    let back = decode(TYPED as u32, bytes, l).unwrap();
    assert_eq!(back, d);
}

#[test]
fn supported_codes_resolve_to_matching_variants() {
    assert!(matches!(decode(0, vec![7], 1).unwrap(), Data::Reserved(_)));
    assert!(matches!(decode(1, vec![0x41], 1).unwrap(), Data::Utf8(_)));
    assert!(matches!(decode(2, vec![0, 0x41], 2).unwrap(), Data::Utf16(_)));
    assert!(matches!(decode(13, vec![7], 1).unwrap(), Data::Jpeg(_)));
    assert!(matches!(decode(14, vec![7], 1).unwrap(), Data::Png(_)));
}

#[test]
fn unknown_code_fails_and_leaves_value_unparsed() {
    let mut r = Reader::new(vec![1, 2, 3, 4]);
    let mut d = Data::Unparsed(21);
    let e = d.parse(&mut r, 4).unwrap_err();
    assert_eq!(e.kind, ErrorKind::UnknownDataType(21));
    assert_eq!(d, Data::Unparsed(21));
}

#[test]
fn unknown_code_in_typed_header() {
    // effective code 22 taken from the sub-header
    let bytes = vec![0, 0, 0, 22, 0, 0, 0, 0, 9];
    assert_eq!(
        decode(TYPED as u32, bytes, 9).unwrap_err(),
        ErrorKind::UnknownDataType(22)
    );
}

#[test]
fn second_decode_fails_with_parsing_error() {
    let mut r = Reader::new(vec![0x41, 0x42, 0x41, 0x42]);
    let mut d = Data::Unparsed(UTF8 as u32);
    d.parse(&mut r, 2).unwrap();
    let resolved = d.clone();
    let e = d.parse(&mut r, 2).unwrap_err();
    assert_eq!(e.kind, ErrorKind::Parsing);
    assert_eq!(d, resolved);
}

#[test]
fn unparsed_cannot_be_written() {
    let d = Data::Unparsed(1);
    let mut w = Writer::new();
    assert_eq!(
        w_err_kind(d.write_raw(&mut w)),
        ErrorKind::UnwritableDataType
    );
    assert_eq!(
        w_err_kind(d.write_typed(&mut w)),
        ErrorKind::UnwritableDataType
    );
    assert!(w.into_vec().is_empty());
}

fn w_err_kind(r: Result<(), mp4ameta::Error>) -> ErrorKind {
    r.unwrap_err().kind
}

#[test]
fn typed_head_too_short() {
    let bytes = vec![0, 0, 0, 1, 0, 0, 0, 0];
    assert_eq!(
        decode(TYPED as u32, bytes, 8).unwrap_err(),
        ErrorKind::Parsing
    );
}

#[test]
fn short_buffer_is_an_io_error() {
    assert_eq!(decode(1, vec![0x41], 2).unwrap_err(), ErrorKind::Io);
}

#[test]
fn invalid_utf8_is_an_encoding_error() {
    assert_eq!(decode(1, vec![0xFF], 1).unwrap_err(), ErrorKind::Encoding);
}

#[test]
fn unpaired_surrogate_is_an_encoding_error() {
    assert_eq!(
        decode(2, vec![0xD8, 0x34], 2).unwrap_err(),
        ErrorKind::Encoding
    );
}

#[test]
fn utf8_abc_scenario() {
    let back = decode(1, vec![0x41, 0x42, 0x43], 3).unwrap();
    assert_eq!(back, Data::Utf8(String::from("ABC")));
    assert_eq!(back.len(), 3);
    assert_eq!(encode_raw(&back), vec![0x41, 0x42, 0x43]);
}

#[test]
fn typed_xy_scenario() {
    let bytes = vec![0, 0, 0, 1, 0, 0, 0, 0, 0x58, 0x59];
    let back = decode(TYPED as u32, bytes, 10).unwrap();
    assert_eq!(back, Data::Utf8(String::from("XY")));
    assert_eq!(back.len(), 2);
    assert_eq!(mp4ameta::Content::TypedData(back).len(), 10);
}

#[test]
fn data_equality_is_variant_aware() {
    assert_ne!(Data::Reserved(vec![1]), Data::Jpeg(vec![1]));
    assert_ne!(Data::Utf8(String::from("a")), Data::Utf16(String::from("a")));
    assert_eq!(Data::Unparsed(3), Data::Unparsed(3));
    assert_ne!(Data::Unparsed(3), Data::Unparsed(4));
}

#[test]
fn reader_and_writer_round_trip_big_endian() {
    let mut w = Writer::new();
    w.write_be_u32(0xDEADBEEF);
    w.write_be_u16(0x0102);
    let mut r = Reader::new(w.into_vec());
    assert_eq!(r.read_be_u32().unwrap(), 0xDEADBEEF);
    assert_eq!(r.read_be_u16().unwrap(), 0x0102);
    assert!(r.read_be_u16().unwrap_err().kind == ErrorKind::Io);
}

#[test]
fn read_helpers() {
    let mut r = Reader::new(vec![0x41, 0x42, 0x00, 0x43]);
    assert_eq!(Data::read_u8_vec(&mut r, 2).unwrap(), vec![0x41, 0x42]);
    assert_eq!(Data::read_u16_vec(&mut r, 1).unwrap(), vec![0x43]);
    let mut r2 = Reader::new(vec![0x68, 0x69]);
    assert_eq!(Data::read_utf8(&mut r2, 2).unwrap(), "hi");
    let mut r3 = Reader::new(vec![0x00, 0x68, 0x00, 0x69]);
    assert_eq!(Data::read_utf16(&mut r3, 4).unwrap(), "hi");
}

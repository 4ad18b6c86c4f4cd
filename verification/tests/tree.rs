use mp4ameta::{Atom, Content, Data, ErrorKind, Reader, Writer};

fn write(content: &Content) -> Vec<u8> {
    let mut w = Writer::new();
    content.write_to(&mut w).unwrap();
    w.into_vec()
}

#[test]
fn empty_container_has_length_zero() {
    assert_eq!(Content::atoms().len(), 0);
    assert_eq!(Content::Empty.len(), 0);
}

#[test]
fn container_length_sums_children() {
    let a = Atom::with([0x61, 0x62, 0x63, 0x64], 0, Content::Empty);
    let b = Atom::with(
        [0x65, 0x66, 0x67, 0x68],
        4,
        Content::RawData(Data::Reserved(vec![1, 2, 3])),
    );
    let a_len = a.len();
    let b_len = b.len();
    assert_eq!(a_len, 8);
    assert_eq!(b_len, 8 + 4 + 3);
    let c = Content::atoms().add_atom(a).add_atom(b);
    assert_eq!(c.len(), a_len + b_len);
}

#[test]
fn typed_data_length_adds_sub_header() {
    let d = Data::Utf8(String::from("abc"));
    assert_eq!(Content::TypedData(d.clone()).len(), 8 + 3);
    assert_eq!(Content::RawData(d).len(), 3);
}

#[test]
fn builders_shape_the_tree() {
    let c = Content::atom(Atom::with([1, 2, 3, 4], 0, Content::Empty));
    match &c {
        Content::Atoms(v) => {
            assert_eq!(v.len(), 1);
            assert_eq!(v[0].head, [1, 2, 3, 4]);
        }
        _ => panic!("expected a container"),
    }

    let d = Content::data_atom();
    match &d {
        Content::Atoms(v) => {
            assert_eq!(v[0].head, [0x64, 0x61, 0x74, 0x61]);
            assert_eq!(v[0].content, Content::TypedData(Data::Unparsed(u32::MAX)));
        }
        _ => panic!("expected a container"),
    }

    let e = Content::data_atom_with(Data::Utf8(String::from("x")));
    match &e {
        Content::Atoms(v) => {
            assert_eq!(
                v[0].content,
                Content::TypedData(Data::Utf8(String::from("x")))
            );
        }
        _ => panic!("expected a container"),
    }

    let f = Content::atom_with([9, 9, 9, 9], 4, Content::Empty).add_data_atom();
    match &f {
        Content::Atoms(v) => {
            assert_eq!(v.len(), 2);
            assert_eq!(v[0].offset, 4);
            assert_eq!(v[1].head, [0x64, 0x61, 0x74, 0x61]);
        }
        _ => panic!("expected a container"),
    }

    let g = Content::atoms().add_atom_with([5, 6, 7, 8], 0, Content::Empty);
    match &g {
        Content::Atoms(v) => assert_eq!(v[0].head, [5, 6, 7, 8]),
        _ => panic!("expected a container"),
    }
}

#[test]
fn add_atom_leaves_other_variants_unchanged() {
    let c = Content::Empty.add_atom(Atom::data_atom());
    assert_eq!(c, Content::Empty);
    let r = Content::RawData(Data::Reserved(vec![1])).add_data_atom();
    assert_eq!(r, Content::RawData(Data::Reserved(vec![1])));
}

#[test]
fn write_serializes_children_in_order() {
    let c = Content::atoms()
        .add_atom_with([0x6D, 0x6F, 0x6F, 0x76], 0, Content::Empty)
        .add_atom_with(
            [0x66, 0x72, 0x65, 0x65],
            0,
            Content::RawData(Data::Reserved(vec![0xAA])),
        );
    let bytes = write(&c);
    assert_eq!(
        bytes,
        vec![
            0, 0, 0, 8, 0x6D, 0x6F, 0x6F, 0x76, // first: empty body
            0, 0, 0, 9, 0x66, 0x72, 0x65, 0x65, 0xAA, // second: one byte
        ]
    );
}

#[test]
fn write_pads_the_skip_offset_with_zeros() {
    let c = Content::atom_with([1, 2, 3, 4], 3, Content::Empty);
    assert_eq!(write(&c), vec![0, 0, 0, 11, 1, 2, 3, 4, 0, 0, 0]);
}

#[test]
fn container_write_parse_round_trip() {
    let inner = Content::data_atom_with(Data::Utf8(String::from("hello")));
    let c = Content::atom_with([0x6D, 0x6F, 0x6F, 0x76], 0, inner);
    let bytes = write(&c);
    let total = bytes.len();
    assert_eq!(c.len(), total);

    let mut parsed = Content::atoms();
    let mut r = Reader::new(bytes);
    parsed.parse(&mut r, total).unwrap();
    assert_eq!(r.remaining(), 0);

    match &parsed {
        Content::Atoms(v) => {
            assert_eq!(v.len(), 1);
            assert_eq!(v[0].head, [0x6D, 0x6F, 0x6F, 0x76]);
            match &v[0].content {
                Content::Atoms(children) => {
                    assert_eq!(children.len(), 1);
                    assert_eq!(children[0].head, [0x64, 0x61, 0x74, 0x61]);
                    assert_eq!(
                        children[0].content,
                        Content::TypedData(Data::Utf8(String::from("hello")))
                    );
                }
                _ => panic!("expected nested atoms"),
            }
        }
        _ => panic!("expected a container"),
    }
}

#[test]
fn parse_rejects_truncated_and_oversized_records() {
    let mut c = Content::atoms();
    let mut r = Reader::new(vec![1, 2, 3]);
    let e = c.parse(&mut r, 3).unwrap_err();
    assert_eq!(e.kind, ErrorKind::Parsing);

    // declared record size overruns the budget
    let mut c2 = Content::atoms();
    let mut r2 = Reader::new(vec![0, 0, 0, 20, 0x61, 0x62, 0x63, 0x64]);
    let e2 = c2.parse(&mut r2, 8).unwrap_err();
    assert_eq!(e2.kind, ErrorKind::Parsing);
}

#[test]
fn empty_content_parses_nothing() {
    let mut c = Content::Empty;
    let mut r = Reader::new(vec![1, 2, 3]);
    c.parse(&mut r, 3).unwrap();
    assert_eq!(r.remaining(), 3);
    assert_eq!(c, Content::Empty);
}

#[test]
fn unparsed_data_makes_content_unwritable() {
    let c = Content::data_atom();
    let mut w = Writer::new();
    let e = c.write_to(&mut w).unwrap_err();
    assert_eq!(e.kind, ErrorKind::UnwritableDataType);
}

#[test]
fn content_equality_is_variant_aware() {
    assert_ne!(Content::atoms(), Content::Empty);
    assert_eq!(Content::atoms(), Content::atoms());
    let a = Content::data_atom_with(Data::Utf8(String::from("x")));
    let b = Content::data_atom_with(Data::Utf8(String::from("x")));
    assert_eq!(a, b);
    assert_ne!(
        Content::RawData(Data::Reserved(vec![])),
        Content::TypedData(Data::Reserved(vec![]))
    );
}

//! The recursive content tree: an atom's body is a list of child atoms, a
//! data payload (raw or behind a typed sub-header), or nothing. Parsing and
//! serialization track exact byte-length budgets across nesting levels.

use crate::data::{
    data_bytes, data_len, data_parse_post, decodes_to, eff_bits, parse_ok, typed_bytes, Data,
    TYPED_RAW,
};
use crate::error::{Error, ErrorKind};
use crate::stream::{be32_bytes, be32_val, zeros, Reader, Writer};
use vstd::prelude::*;
use vstd::seq_lib::*;

verus! {

/// One record of the container format: a four-byte tag, a fixed number of
/// bytes skipped between the record header and the content (version/flags
/// fields), and the content itself.
#[derive(Debug)]
pub struct Atom {
    pub head: [u8; 4],
    pub offset: usize,
    pub content: Content,
}

/// The different types of content an atom might have.
#[derive(Debug)]
pub enum Content {
    /// A nested sequence of child atoms, in document order.
    Atoms(Vec<Atom>),
    /// A data payload with no type sub-header.
    RawData(Data),
    /// A data payload behind an explicit eight-byte type/locale sub-header.
    TypedData(Data),
    /// No content.
    Empty,
}

/// The four-byte tag of a generic data record.
pub open spec fn data_head() -> Seq<u8> {
    seq![0x64u8, 0x61u8, 0x74u8, 0x61u8]
}

/// The length in bytes of serialized content.
pub open spec fn content_len(c: Content) -> nat
    decreases c,
{
    match c {
        Content::Atoms(v) => atoms_len(v@),
        Content::RawData(d) => data_len(d),
        Content::TypedData(d) => 8 + data_len(d),
        Content::Empty => 0,
    }
}

/// The summed lengths of a sequence of serialized atoms.
pub open spec fn atoms_len(s: Seq<Atom>) -> nat
    decreases s,
{
    if s.len() == 0 {
        0
    } else {
        atom_len(s[0]) + atoms_len(s.drop_first())
    }
}

/// The length in bytes of one serialized atom: a four-byte size, a four-byte
/// tag, the skip-offset, and the content.
pub open spec fn atom_len(a: Atom) -> nat
    decreases a,
{
    (8 + a.offset + content_len(a.content)) as nat
}

/// Whether content can be serialized: no unparsed data value anywhere.
pub open spec fn content_writable(c: Content) -> bool
    decreases c,
{
    match c {
        Content::Atoms(v) => atoms_writable(v@),
        Content::RawData(d) => !(d is Unparsed),
        Content::TypedData(d) => !(d is Unparsed),
        Content::Empty => true,
    }
}

pub open spec fn atoms_writable(s: Seq<Atom>) -> bool
    decreases s,
{
    s.len() == 0 || (atom_writable(s[0]) && atoms_writable(s.drop_first()))
}

pub open spec fn atom_writable(a: Atom) -> bool
    decreases a,
{
    content_writable(a.content)
}

/// Whether every nested atom's size fits the four-byte size field.
pub open spec fn content_fits(c: Content) -> bool
    decreases c,
{
    match c {
        Content::Atoms(v) => atoms_fit(v@),
        _ => true,
    }
}

pub open spec fn atoms_fit(s: Seq<Atom>) -> bool
    decreases s,
{
    s.len() == 0 || (atom_fits(s[0]) && atoms_fit(s.drop_first()))
}

pub open spec fn atom_fits(a: Atom) -> bool
    decreases a,
{
    atom_len(a) <= u32::MAX && content_fits(a.content)
}

/// The bytes serialized content consists of.
pub open spec fn content_bytes(c: Content) -> Seq<u8>
    decreases c,
{
    match c {
        Content::Atoms(v) => atoms_bytes(v@),
        Content::RawData(d) => data_bytes(d),
        Content::TypedData(d) => typed_bytes(d),
        Content::Empty => Seq::<u8>::empty(),
    }
}

pub open spec fn atoms_bytes(s: Seq<Atom>) -> Seq<u8>
    decreases s,
{
    if s.len() == 0 {
        Seq::<u8>::empty()
    } else {
        atom_bytes(s[0]) + atoms_bytes(s.drop_first())
    }
}

/// One serialized atom: big-endian size, tag, zeroed skip-offset, content.
pub open spec fn atom_bytes(a: Atom) -> Seq<u8>
    decreases a,
{
    be32_bytes(atom_len(a) as int) + a.head@ + zeros(a.offset as nat) + content_bytes(a.content)
}

/// A `data` record body parses as typed data: the `TYPED` sentinel makes the
/// first eight bytes a sub-header, and the rest decodes under the effective
/// code found there.
pub open spec fn typed_payload_parses(body: Seq<u8>, d: Data) -> bool {
    &&& parse_ok(TYPED_RAW, body, 0, body.len() as int)
    &&& decodes_to(eff_bits(TYPED_RAW, body, 0), body.skip(8), d)
}

/// Relates a byte region to the sibling atoms parsed from it. Each record is
/// a four-byte big-endian size (counting its own eight header bytes), a
/// four-byte tag, and a body filling the rest of the size; a `data` record's
/// body is typed data, any other record's body is a nested atom list.
pub open spec fn atoms_parse(bytes: Seq<u8>, atoms: Seq<Atom>) -> bool
    decreases bytes.len(),
{
    if bytes.len() == 0 {
        atoms == Seq::<Atom>::empty()
    } else if bytes.len() < 8 {
        false
    } else {
        let size = be32_val(bytes.subrange(0, 4));
        if size < 8 || size > bytes.len() {
            false
        } else {
            &&& atoms.len() >= 1
            &&& atoms[0].head@ == bytes.subrange(4, 8)
            &&& atoms[0].offset == 0
            &&& (if bytes.subrange(4, 8) == data_head() {
                atoms[0].content matches Content::TypedData(d) && typed_payload_parses(
                    bytes.subrange(8, size),
                    d,
                )
            } else {
                atoms[0].content matches Content::Atoms(v) && atoms_parse(
                    bytes.subrange(8, size),
                    v@,
                )
            })
            &&& atoms_parse(bytes.skip(size), atoms.drop_first())
        }
    }
}

/// Splitting a sequence of atoms splits its summed length, its bytes, and
/// its writability and size-fit judgements.
pub proof fn lemma_atoms_split(s: Seq<Atom>, i: int)
    requires
        0 <= i <= s.len(),
    ensures
        atoms_len(s) == atoms_len(s.take(i)) + atoms_len(s.skip(i)),
        atoms_bytes(s) == atoms_bytes(s.take(i)) + atoms_bytes(s.skip(i)),
        atoms_writable(s) == (atoms_writable(s.take(i)) && atoms_writable(s.skip(i))),
        atoms_fit(s) == (atoms_fit(s.take(i)) && atoms_fit(s.skip(i))),
    decreases i,
{
    if i == 0 {
        assert(s.take(0) =~= Seq::<Atom>::empty());
        assert(s.skip(0) =~= s);
        assert(atoms_bytes(Seq::<Atom>::empty()) + atoms_bytes(s) =~= atoms_bytes(s));
    } else {
        assert(s.len() > 0);
        lemma_atoms_split(s.drop_first(), i - 1);
        assert(s.take(i)[0] == s[0]);
        assert(s.take(i).drop_first() =~= s.drop_first().take(i - 1));
        assert(s.skip(i) =~= s.drop_first().skip(i - 1));
        assert(atoms_bytes(s) =~= atoms_bytes(s.take(i)) + atoms_bytes(s.skip(i)));
    }
}

/// A single atom carries its own length, bytes, and judgements.
pub proof fn lemma_atoms_singleton(a: Atom)
    ensures
        atoms_len(seq![a]) == atom_len(a),
        atoms_bytes(seq![a]) == atom_bytes(a),
        atoms_writable(seq![a]) == atom_writable(a),
        atoms_fit(seq![a]) == atom_fits(a),
{
    assert(seq![a].drop_first() =~= Seq::<Atom>::empty());
    assert(atoms_len(Seq::<Atom>::empty()) == 0);
    assert(atoms_bytes(Seq::<Atom>::empty()) == Seq::<u8>::empty());
    assert(atoms_writable(Seq::<Atom>::empty()));
    assert(atoms_fit(Seq::<Atom>::empty()));
    assert(atom_bytes(a) + Seq::<u8>::empty() =~= atom_bytes(a));
}

/// Extending a prefix by one atom extends its summed length, bytes, and
/// judgements by that atom's.
pub proof fn lemma_atoms_snoc(s: Seq<Atom>, i: int)
    requires
        0 <= i < s.len(),
    ensures
        atoms_len(s.take(i + 1)) == atoms_len(s.take(i)) + atom_len(s[i]),
        atoms_bytes(s.take(i + 1)) == atoms_bytes(s.take(i)) + atom_bytes(s[i]),
        atoms_writable(s.take(i + 1)) == (atoms_writable(s.take(i)) && atom_writable(s[i])),
        atoms_fit(s.take(i + 1)) == (atoms_fit(s.take(i)) && atom_fits(s[i])),
{
    lemma_atoms_split(s.take(i + 1), i);
    assert(s.take(i + 1).take(i) =~= s.take(i));
    assert(s.take(i + 1).skip(i) =~= seq![s[i]]);
    lemma_atoms_singleton(s[i]);
}

/// Law: the length of a container is the sum of its atoms' lengths — an
/// empty container has length zero and concatenating atom lists adds their
/// lengths — while empty content has length zero, typed data adds its
/// eight-byte sub-header to the payload's declared length, and raw data is
/// exactly the payload's declared length.
pub proof fn lemma_content_len_laws(a: Seq<Atom>, b: Seq<Atom>, d: Data)
    ensures
        atoms_len(Seq::<Atom>::empty()) == 0,
        atoms_len(a + b) == atoms_len(a) + atoms_len(b),
        content_len(Content::Empty) == 0,
        content_len(Content::TypedData(d)) == 8 + data_len(d),
        content_len(Content::RawData(d)) == data_len(d),
{
    lemma_atoms_split(a + b, a.len() as int);
    assert((a + b).take(a.len() as int) =~= a);
    assert((a + b).skip(a.len() as int) =~= b);
}

impl Atom {
    /// Creates an atom with the given head, offset and content.
    pub fn with(head: [u8; 4], offset: usize, content: Content) -> (r: Atom)
        ensures
            r == (Atom { head, offset, content }),
    {
        Atom { head, offset, content }
    }

    /// Creates a generic `data` record ready to receive typed data.
    pub fn data_atom() -> (r: Atom)
        ensures
            r.head@ == data_head(),
            r.offset == 0,
            r.content == Content::TypedData(Data::Unparsed(TYPED_RAW)),
    {
        let head: [u8; 4] = [0x64, 0x61, 0x74, 0x61];
        proof {
            assert(head@ =~= data_head());
        }
        Atom { head, offset: 0, content: Content::TypedData(Data::Unparsed(TYPED_RAW)) }
    }

    /// Creates a generic `data` record holding the given data.
    pub fn data_atom_with(data: Data) -> (r: Atom)
        ensures
            r.head@ == data_head(),
            r.offset == 0,
            r.content == Content::TypedData(data),
    {
        let head: [u8; 4] = [0x64, 0x61, 0x74, 0x61];
        proof {
            assert(head@ =~= data_head());
        }
        Atom { head, offset: 0, content: Content::TypedData(data) }
    }

    /// Returns the length in bytes: eight header bytes, the skip-offset, and
    /// the content.
    pub fn len(&self) -> (r: usize)
        requires
            atom_len(*self) <= usize::MAX,
        ensures
            r == atom_len(*self),
    {
        8 + self.offset + self.content.len()
    }

    /// Writes the atom: its big-endian size, its tag, a zeroed skip-offset,
    /// then its content.
    pub fn write_to(&self, writer: &mut Writer) -> (r: Result<(), Error>)
        requires
            atom_fits(*self),
        ensures
            match r {
                Ok(()) => atom_writable(*self) && final(writer).buf@ == old(writer).buf@
                    + atom_bytes(*self),
                Err(e) => !atom_writable(*self) && e.kind == ErrorKind::UnwritableDataType && old(
                    writer,
                ).buf@.is_prefix_of(final(writer).buf@),
            },
        decreases atom_len(*self), 0nat,
    {
        let ghost w0 = writer.buf@;
        let total = self.len();
        writer.write_be_u32(total as u32);
        writer.write_u8(self.head[0]);
        writer.write_u8(self.head[1]);
        writer.write_u8(self.head[2]);
        writer.write_u8(self.head[3]);
        proof {
            assert(writer.buf@ =~= w0 + be32_bytes(atom_len(*self) as int) + self.head@);
        }
        writer.write_zeros(self.offset);
        match self.content.write_to(writer) {
            Ok(()) => {
                proof {
                    assert(writer.buf@ =~= w0 + atom_bytes(*self));
                }
                Ok(())
            },
            Err(e) => {
                proof {
                    assert(w0.is_prefix_of(writer.buf@));
                }
                Err(e)
            },
        }
    }

    /// Reads sibling records from the reader until exactly `length` bytes
    /// are consumed, appending each parsed atom to the list. A record whose
    /// declared size undercuts its header or overruns the budget is a
    /// parsing error; malformed payloads propagate their own errors.
    pub fn parse_atoms(atoms: &mut Vec<Atom>, reader: &mut Reader, length: usize) -> (r: Result<
        (),
        Error,
    >)
        requires
            old(reader).wf(),
        ensures
            final(reader).wf(),
            final(reader).buf@ == old(reader).buf@,
            final(atoms)@.len() >= old(atoms)@.len(),
            final(atoms)@.take(old(atoms)@.len() as int) == old(atoms)@,
            r is Ok ==> {
                &&& old(reader).pos + length <= old(reader).buf@.len()
                &&& final(reader).pos == old(reader).pos + length
                &&& atoms_parse(
                    old(reader).buf@.subrange(old(reader).pos as int, old(reader).pos + length),
                    final(atoms)@.skip(old(atoms)@.len() as int),
                )
            },
            (old(reader).pos + length <= old(reader).buf@.len() && (exists|s: Seq<Atom>|
                #[trigger] atoms_parse(
                    old(reader).buf@.subrange(old(reader).pos as int, old(reader).pos + length),
                    s,
                ))) ==> r is Ok,
        decreases length, 0nat,
    {
        if length == 0 {
            proof {
                assert(atoms@.take(old(atoms)@.len() as int) =~= old(atoms)@);
                assert(atoms@.skip(old(atoms)@.len() as int) =~= Seq::<Atom>::empty());
                assert(old(reader).buf@.subrange(
                    old(reader).pos as int,
                    old(reader).pos as int,
                ) =~= Seq::<u8>::empty());
                assert(atoms_parse(Seq::<u8>::empty(), Seq::<Atom>::empty()));
            }
            return Ok(());
        }
        let ghost b = reader.buf@;
        let ghost p = reader.pos as int;
        let ghost a0 = atoms@;
        let ghost region = b.subrange(p, p + length as int);
        if length < 8 {
            proof {
                if p + length <= b.len() && (exists|s: Seq<Atom>| #[trigger] atoms_parse(region, s)) {
                    let s = choose|s: Seq<Atom>| atoms_parse(region, s);
                    assert(region.len() == length);
                    assert(!atoms_parse(region, s));
                    assert(false);
                }
            }
            return Err(Error::new(ErrorKind::Parsing, "atom head truncated"));
        }
        let size32 = match reader.read_be_u32() {
            Ok(s) => s,
            Err(e) => {
                proof {
                    if p + length <= b.len() {
                        assert(false);
                    }
                }
                return Err(e);
            },
        };
        let size = size32 as usize;
        let hv = match reader.read_exact(4) {
            Ok(v) => v,
            Err(e) => {
                proof {
                    if p + length <= b.len() {
                        assert(false);
                    }
                }
                return Err(e);
            },
        };
        if size < 8 || size > length {
            proof {
                if p + length <= b.len() && (exists|s: Seq<Atom>| #[trigger] atoms_parse(region, s)) {
                    let s = choose|s: Seq<Atom>| atoms_parse(region, s);
                    assert(region.len() == length);
                    assert(region.subrange(0, 4) =~= b.subrange(p, p + 4));
                    assert(be32_val(region.subrange(0, 4)) == size);
                    assert(!atoms_parse(region, s));
                    assert(false);
                }
            }
            return Err(Error::new(ErrorKind::Parsing, "atom size out of bounds"));
        }
        let head: [u8; 4] = [hv[0], hv[1], hv[2], hv[3]];
        proof {
            assert(head@ =~= b.subrange(p + 4, p + 8));
        }
        let is_data = head[0] == 0x64 && head[1] == 0x61 && head[2] == 0x74 && head[3] == 0x61;
        proof {
            if is_data {
                assert(head@ =~= data_head());
            } else {
                if head@ == data_head() {
                    assert(head@[0] == 0x64 && head@[1] == 0x61 && head@[2] == 0x74 && head@[3]
                        == 0x61);
                    assert(false);
                }
            }
        }
        let mut content = if is_data {
            Content::TypedData(Data::Unparsed(TYPED_RAW))
        } else {
            Content::Atoms(Vec::new())
        };
        let body = size - 8;
        let ghost child_body = b.subrange(p + 8, p + size as int);
        match content.parse(reader, body) {
            Ok(()) => {},
            Err(e) => {
                proof {
                    if p + length <= b.len() && (exists|s: Seq<Atom>| #[trigger] atoms_parse(region, s)) {
                        let s = choose|s: Seq<Atom>| atoms_parse(region, s);
                        assert(region.len() == length);
                        assert(region.subrange(0, 4) =~= b.subrange(p, p + 4));
                        assert(region.subrange(4, 8) =~= b.subrange(p + 4, p + 8));
                        assert(region.subrange(8, size as int) =~= child_body);
                        assert(be32_val(region.subrange(0, 4)) == size);
                        assert(child_body.len() == body);
                        let c0 = s[0].content;
                        if is_data {
                            assert(region.subrange(4, 8) == data_head());
                            match c0 {
                                Content::TypedData(dw) => {
                                    assert(typed_payload_parses(child_body, dw));
                                    assert(parse_ok(TYPED_RAW, child_body, 0, body as int));
                                    assert(child_body.subrange(0, 4) =~= b.subrange(p + 8, p + 12));
                                    assert(eff_bits(TYPED_RAW, b, p + 8) == eff_bits(
                                        TYPED_RAW,
                                        child_body,
                                        0,
                                    ));
                                    assert(child_body.subrange(8, body as int) =~= b.subrange(
                                        p + 16,
                                        p + 8 + body as int,
                                    ));
                                    assert(parse_ok(TYPED_RAW, b, p + 8, body as int));
                                    assert(false);
                                },
                                _ => {
                                    assert(false);
                                },
                            }
                        } else {
                            assert(region.subrange(4, 8) != data_head());
                            match c0 {
                                Content::Atoms(vw) => {
                                    assert(b.subrange(p + 8, p + 8 + body as int) =~= child_body);
                                    assert(atoms_parse(
                                        b.subrange(p + 8, p + 8 + body as int),
                                        vw@,
                                    ));
                                    assert(false);
                                },
                                _ => {
                                    assert(false);
                                },
                            }
                        }
                    }
                }
                return Err(e);
            },
        }
        proof {
            // the typed sub-header facts carry over from the whole buffer to
            // the record's own body
            if is_data {
                assert(child_body.subrange(0, 4) =~= b.subrange(p + 8, p + 12));
                if body > 8 && p + 16 <= b.len() {
                    assert(child_body.subrange(8, child_body.len() as int) =~= b.subrange(
                        p + 16,
                        p + 8 + body as int,
                    ));
                    assert(child_body.skip(8) =~= b.subrange(p + 16, p + 8 + body as int));
                }
            }
        }
        let parsed = Atom { head, offset: 0, content };
        atoms.push(parsed);
        let rest = length - size;
        let ghost mid = atoms@;
        let result = Atom::parse_atoms(atoms, reader, rest);
        proof {
            assert(mid == a0.push(parsed));
            assert(atoms@.take(mid.len() as int) == mid);
            assert(atoms@.take(a0.len() as int) =~= a0);
            if result is Ok {
                let tail = atoms@.skip(a0.len() as int);
                assert(atoms@[a0.len() as int] == mid[a0.len() as int]);
                assert(tail[0] == parsed);
                assert(tail.drop_first() =~= atoms@.skip(a0.len() as int + 1));
                assert(atoms@.skip(mid.len() as int) =~= tail.drop_first());
                assert(region.len() == length);
                assert(region.subrange(0, 4) =~= b.subrange(p, p + 4));
                assert(region.subrange(4, 8) =~= b.subrange(p + 4, p + 8));
                assert(region.subrange(8, size as int) =~= child_body);
                assert(region.skip(size as int) =~= b.subrange(p + size as int, p + length as int));
                assert(be32_val(region.subrange(0, 4)) == size);
                let pc = parsed.content;
                if is_data {
                    match pc {
                        Content::TypedData(d2) => {
                            assert(parse_ok(TYPED_RAW, b, p + 8, body as int));
                            assert(child_body.len() == body);
                            assert(eff_bits(TYPED_RAW, child_body, 0) == eff_bits(
                                TYPED_RAW,
                                b,
                                p + 8,
                            ));
                            assert(parse_ok(TYPED_RAW, child_body, 0, child_body.len() as int));
                            assert(typed_payload_parses(child_body, d2));
                        },
                        _ => {
                            assert(false);
                        },
                    }
                } else {
                    match pc {
                        Content::Atoms(cv) => {
                            assert(cv@.skip(0) =~= cv@);
                            assert(atoms_parse(child_body, cv@));
                        },
                        _ => {
                            assert(false);
                        },
                    }
                }
                assert(atoms_parse(region, tail));
            }
            if result is Err {
                if p + length <= b.len() && (exists|s: Seq<Atom>| #[trigger] atoms_parse(region, s)) {
                    let s = choose|s: Seq<Atom>| atoms_parse(region, s);
                    assert(region.len() == length);
                    assert(region.subrange(0, 4) =~= b.subrange(p, p + 4));
                    assert(be32_val(region.subrange(0, 4)) == size);
                    assert(atoms_parse(region.skip(size as int), s.drop_first()));
                    assert(region.skip(size as int) =~= b.subrange(
                        p + size as int,
                        p + length as int,
                    ));
                    assert(atoms_parse(
                        b.subrange(p + size as int, p + length as int),
                        s.drop_first(),
                    ));
                    assert(false);
                }
            }
        }
        result
    }
}

impl Content {
    /// Creates content holding an empty list of atoms.
    pub fn atoms() -> (r: Content)
        ensures
            r matches Content::Atoms(v) && v@ == Seq::<Atom>::empty(),
    {
        Content::Atoms(Vec::new())
    }

    /// Creates content holding the one given atom.
    pub fn atom(atom: Atom) -> (r: Content)
        ensures
            r matches Content::Atoms(v) && v@ == seq![atom],
    {
        let mut v: Vec<Atom> = Vec::new();
        v.push(atom);
        proof {
            assert(v@ =~= seq![atom]);
        }
        Content::Atoms(v)
    }

    /// Creates content holding one generic `data` record awaiting typed data.
    pub fn data_atom() -> (r: Content)
        ensures
            r matches Content::Atoms(v) && v@.len() == 1 && v@[0].head@ == data_head()
                && v@[0].offset == 0 && v@[0].content == Content::TypedData(
                Data::Unparsed(TYPED_RAW),
            ),
    {
        Content::atom(Atom::data_atom())
    }

    /// Creates content holding one generic `data` record with the given data.
    pub fn data_atom_with(data: Data) -> (r: Content)
        ensures
            r matches Content::Atoms(v) && v@.len() == 1 && v@[0].head@ == data_head()
                && v@[0].offset == 0 && v@[0].content == Content::TypedData(data),
    {
        Content::atom(Atom::data_atom_with(data))
    }

    /// Creates content holding one new atom with the given head, offset and
    /// nested content.
    pub fn atom_with(head: [u8; 4], offset: usize, content: Content) -> (r: Content)
        ensures
            r matches Content::Atoms(v) && v@ == seq![(Atom { head, offset, content })],
    {
        Content::atom(Atom::with(head, offset, content))
    }

    /// Adds the atom to the list of children if `self` holds one; any other
    /// content is returned unchanged.
    pub fn add_atom(self, atom: Atom) -> (r: Content)
        ensures
            (self matches Content::Atoms(v) ==> r matches Content::Atoms(v2) && v2@ == v@.push(
                atom,
            )),
            !(self is Atoms) ==> r == self,
    {
        match self {
            Content::Atoms(mut atoms) => {
                atoms.push(atom);
                Content::Atoms(atoms)
            },
            other => other,
        }
    }

    /// Adds a generic `data` record to the list of children if `self` holds
    /// one.
    pub fn add_data_atom(self) -> (r: Content)
        ensures
            (self matches Content::Atoms(v) ==> r matches Content::Atoms(v2) && v2@.len() == v@.len()
                + 1 && v2@.take(v@.len() as int) == v@ && v2@.last().head@ == data_head()
                && v2@.last().offset == 0 && v2@.last().content == Content::TypedData(
                Data::Unparsed(TYPED_RAW),
            )),
            !(self is Atoms) ==> r == self,
    {
        let r = self.add_atom(Atom::data_atom());
        proof {
            let ghost g = r;
            match g {
                Content::Atoms(v2) => {
                    assert(v2@.take(v2@.len() - 1) =~= v2@.subrange(0, v2@.len() - 1));
                },
                _ => {},
            }
        }
        r
    }

    /// Adds a new atom with the given head, offset and nested content to the
    /// list of children if `self` holds one.
    pub fn add_atom_with(self, head: [u8; 4], offset: usize, content: Content) -> (r: Content)
        ensures
            (self matches Content::Atoms(v) ==> r matches Content::Atoms(v2) && v2@ == v@.push(
                (Atom { head, offset, content }),
            )),
            !(self is Atoms) ==> r == self,
    {
        self.add_atom(Atom::with(head, offset, content))
    }

    /// Returns the length in bytes of the serialized content.
    pub fn len(&self) -> (r: usize)
        requires
            content_len(*self) <= usize::MAX,
        ensures
            r == content_len(*self),
        decreases content_len(*self),
    {
        match self {
            Content::Atoms(v) => {
                let ghost s = v@;
                let mut total: usize = 0;
                let mut i: usize = 0;
                while i < v.len()
                    invariant
                        s == v@,
                        *self matches Content::Atoms(vv) && vv@ == s,
                        content_len(*self) == atoms_len(s),
                        i <= s.len(),
                        atoms_len(s) <= usize::MAX,
                        total == atoms_len(s.take(i as int)),
                    decreases s.len() - i,
                {
                    proof {
                        lemma_atoms_split(s, i as int);
                        assert(s.skip(i as int)[0] == s[i as int]);
                        assert(atoms_len(s.skip(i as int)) == atom_len(s[i as int]) + atoms_len(
                            s.skip(i as int).drop_first(),
                        ));
                        lemma_atoms_snoc(s, i as int);
                    }
                    let a = &v[i];
                    let here = 8 + a.offset + a.content.len();
                    total = total + here;
                    i = i + 1;
                }
                proof {
                    assert(s.take(s.len() as int) =~= s);
                }
                total
            },
            Content::TypedData(d) => 8 + d.len(),
            Content::RawData(d) => d.len(),
            Content::Empty => 0,
        }
    }

    /// Attempts to parse itself from the reader within the given byte
    /// budget: an atom list reads sibling records until the budget is
    /// consumed, data parses its payload, and empty content reads nothing.
    pub fn parse(&mut self, reader: &mut Reader, length: usize) -> (r: Result<(), Error>)
        requires
            old(reader).wf(),
        ensures
            final(reader).wf(),
            final(reader).buf@ == old(reader).buf@,
            ({
                let b = old(reader).buf@;
                let p = old(reader).pos as int;
                let n = length as int;
                match *old(self) {
                    Content::Empty => r is Ok && *final(self) == *old(self) && final(reader).pos
                        == p,
                    Content::RawData(d) => (*final(self)) matches Content::RawData(d2)
                        && data_parse_post(d, d2, b, p, n, final(reader).pos as int, r),
                    Content::TypedData(d) => (*final(self)) matches Content::TypedData(d2)
                        && data_parse_post(d, d2, b, p, n, final(reader).pos as int, r),
                    Content::Atoms(v) => (*final(self)) matches Content::Atoms(v2) && {
                        &&& v2@.len() >= v@.len()
                        &&& v2@.take(v@.len() as int) == v@
                        &&& (r is Ok ==> p + n <= b.len() && final(reader).pos == p + n
                            && atoms_parse(b.subrange(p, p + n), v2@.skip(v@.len() as int)))
                        &&& ((p + n <= b.len() && (exists|s: Seq<Atom>|
                            #[trigger] atoms_parse(b.subrange(p, p + n), s))) ==> r is Ok)
                    },
                }
            }),
        decreases length, 1nat,
    {
        match self {
            Content::Atoms(v) => Atom::parse_atoms(v, reader, length),
            Content::RawData(d) => d.parse(reader, length),
            Content::TypedData(d) => d.parse(reader, length),
            Content::Empty => Ok(()),
        }
    }

    /// Attempts to write the serialized content: children in order for an
    /// atom list, the payload for data, nothing for empty content.
    pub fn write_to(&self, writer: &mut Writer) -> (r: Result<(), Error>)
        requires
            content_fits(*self),
        ensures
            match r {
                Ok(()) => content_writable(*self) && final(writer).buf@ == old(writer).buf@
                    + content_bytes(*self),
                Err(e) => !content_writable(*self) && e.kind == ErrorKind::UnwritableDataType
                    && old(writer).buf@.is_prefix_of(final(writer).buf@),
            },
        decreases content_len(*self), 1nat,
    {
        match self {
            Content::Atoms(v) => {
                let ghost s = v@;
                let ghost w0 = writer.buf@;
                let mut i: usize = 0;
                while i < v.len()
                    invariant
                        s == v@,
                        *self matches Content::Atoms(vv) && vv@ == s,
                        content_len(*self) == atoms_len(s),
                        content_writable(*self) == atoms_writable(s),
                        i <= s.len(),
                        atoms_fit(s),
                        w0 == old(writer).buf@,
                        atoms_writable(s.take(i as int)),
                        writer.buf@ == w0 + atoms_bytes(s.take(i as int)),
                    decreases s.len() - i,
                {
                    proof {
                        lemma_atoms_split(s, i as int);
                        assert(s.skip(i as int)[0] == s[i as int]);
                        assert(atoms_fit(s.skip(i as int)) == (atom_fits(s[i as int]) && atoms_fit(
                            s.skip(i as int).drop_first(),
                        )));
                        assert(atoms_len(s.skip(i as int)) == atom_len(s[i as int]) + atoms_len(
                            s.skip(i as int).drop_first(),
                        ));
                        lemma_atoms_snoc(s, i as int);
                    }
                    let a = &v[i];
                    match a.write_to(writer) {
                        Ok(()) => {},
                        Err(e) => {
                            proof {
                                assert(atoms_writable(s.skip(i as int)) == (atom_writable(
                                    s[i as int],
                                ) && atoms_writable(s.skip(i as int).drop_first())));
                                assert(!atoms_writable(s));
                                assert(writer.buf@.subrange(0, w0.len() as int) =~= w0);
                                assert(w0.is_prefix_of(writer.buf@));
                            }
                            return Err(e);
                        },
                    }
                    i = i + 1;
                }
                proof {
                    assert(s.take(s.len() as int) =~= s);
                }
                Ok(())
            },
            Content::RawData(d) => d.write_raw(writer),
            Content::TypedData(d) => d.write_typed(writer),
            Content::Empty => {
                proof {
                    assert(old(writer).buf@ + Seq::<u8>::empty() =~= old(writer).buf@);
                }
                Ok(())
            },
        }
    }
}

/// Variant-aware equality of atoms: same tag, offset and content.
pub open spec fn atom_eq(a: Atom, b: Atom) -> bool
    decreases a,
{
    a.head@ == b.head@ && a.offset == b.offset && content_eq(a.content, b.content)
}

/// Variant-aware equality of content: equal only when both hold the same
/// variant and the contents agree. A container and empty content are never
/// equal, whatever their lengths.
pub open spec fn content_eq(a: Content, b: Content) -> bool
    decreases a,
{
    match (a, b) {
        (Content::Atoms(x), Content::Atoms(y)) => atoms_eq(x@, y@),
        (Content::RawData(dx), Content::RawData(dy)) => crate::data::data_eq(dx, dy),
        (Content::TypedData(dx), Content::TypedData(dy)) => crate::data::data_eq(dx, dy),
        (Content::Empty, Content::Empty) => true,
        _ => false,
    }
}

/// Elementwise equality of atom sequences.
pub open spec fn atoms_eq(x: Seq<Atom>, y: Seq<Atom>) -> bool
    decreases x,
{
    if x.len() != y.len() {
        false
    } else if x.len() == 0 {
        true
    } else {
        atom_eq(x[0], y[0]) && atoms_eq(x.drop_first(), y.drop_first())
    }
}

/// Compares the atoms of two equally long vectors from index `i` on.
fn atoms_eq_from(x: &Vec<Atom>, y: &Vec<Atom>, i: usize) -> (r: bool)
    requires
        i <= x@.len(),
        x@.len() == y@.len(),
    ensures
        r == atoms_eq(x@.skip(i as int), y@.skip(i as int)),
    decreases x@, 1nat, x@.len() - i,
{
    if i == x.len() {
        proof {
            assert(x@.skip(i as int) =~= Seq::<Atom>::empty());
            assert(y@.skip(i as int) =~= Seq::<Atom>::empty());
        }
        true
    } else {
        let here = x[i] == y[i];
        proof {
            assert(x@.skip(i as int)[0] == x@[i as int]);
            assert(y@.skip(i as int)[0] == y@[i as int]);
            assert(x@.skip(i as int).drop_first() =~= x@.skip(i as int + 1));
            assert(y@.skip(i as int).drop_first() =~= y@.skip(i as int + 1));
        }
        if here {
            atoms_eq_from(x, y, i + 1)
        } else {
            false
        }
    }
}

impl PartialEq for Atom {
    fn eq(&self, other: &Self) -> (r: bool)
        decreases *self, 0nat, 0nat,
    {
        let heads = self.head[0] == other.head[0] && self.head[1] == other.head[1] && self.head[2]
            == other.head[2] && self.head[3] == other.head[3];
        proof {
            if heads {
                assert(self.head@ =~= other.head@);
            } else {
                if self.head@ == other.head@ {
                    assert(self.head@[0] == other.head@[0]);
                    assert(self.head@[1] == other.head@[1]);
                    assert(self.head@[2] == other.head@[2]);
                    assert(self.head@[3] == other.head@[3]);
                    assert(false);
                }
            }
        }
        heads && self.offset == other.offset && self.content == other.content
    }
}

impl vstd::std_specs::cmp::PartialEqSpecImpl for Atom {
    open spec fn obeys_eq_spec() -> bool {
        true
    }

    open spec fn eq_spec(&self, other: &Atom) -> bool {
        atom_eq(*self, *other)
    }
}

impl PartialEq for Content {
    fn eq(&self, other: &Self) -> (r: bool)
        decreases *self, 2nat, 0nat,
    {
        match (self, other) {
            (Content::Atoms(x), Content::Atoms(y)) => {
                if x.len() != y.len() {
                    false
                } else {
                    let r = atoms_eq_from(x, y, 0);
                    proof {
                        assert(x@.skip(0) =~= x@);
                        assert(y@.skip(0) =~= y@);
                    }
                    r
                }
            },
            (Content::RawData(dx), Content::RawData(dy)) => *dx == *dy,
            (Content::TypedData(dx), Content::TypedData(dy)) => *dx == *dy,
            (Content::Empty, Content::Empty) => true,
            _ => false,
        }
    }
}

impl vstd::std_specs::cmp::PartialEqSpecImpl for Content {
    open spec fn obeys_eq_spec() -> bool {
        true
    }

    open spec fn eq_spec(&self, other: &Content) -> bool {
        content_eq(*self, *other)
    }
}

} // verus!

//! The wire format, stated over byte sequences.
//!
//! A document is the header followed by the payload of the root value:
//!
//! ```text
//! offset 0..6   magic number and version
//! offset 6      flags, high bit set
//! offset 7..    payload of the root value
//! ```
//!
//! A field of a compound is `tag | name length (2, LE) | name | payload`; a
//! compound ends with the byte `0x00` where the next tag would stand. A
//! sequence is `element tag | count (4, LE, signed) | payload * count`.

use vstd::prelude::*;
use crate::error::Fault;
use crate::tag::Tag;
use crate::transcode::{text_of_wire, wire_text};
use crate::value::Tree;

verus! {

/// The magic number and version that open every document.
pub open spec fn magic() -> Seq<u8> {
    seq![0xadu8, 0x4eu8, 0x42u8, 0x54u8, 0x00u8, 0x04u8]
}

/// The flags byte that the encoder writes.
pub const FLAGS: u8 = 0x80;

/// The seven bytes that the encoder writes first.
pub open spec fn header() -> Seq<u8> {
    magic().push(FLAGS)
}

/// The largest name length that the two-byte length field holds.
pub const MAX_NAME_LEN: usize = 0xffff;

/// The largest element count that the four-byte signed count holds.
pub const MAX_SEQ_LEN: usize = 0x7fff_ffff;

/// Two bytes, least significant first.
pub open spec fn le16(x: u16) -> Seq<u8> {
    seq![(x % 256) as u8, (x / 256) as u8]
}

/// Four bytes, least significant first.
pub open spec fn le32(x: u32) -> Seq<u8> {
    seq![
        (x % 256) as u8,
        (x / 0x100 % 256) as u8,
        (x / 0x1_0000 % 256) as u8,
        (x / 0x100_0000) as u8,
    ]
}

/// Eight bytes, least significant first: the low half, then the high half.
pub open spec fn le64(x: u64) -> Seq<u8> {
    le32((x % 0x1_0000_0000) as u32) + le32((x / 0x1_0000_0000) as u32)
}

/// The number whose little-endian bytes are the first two of `bytes`.
pub open spec fn from_le16(bytes: Seq<u8>) -> u16 {
    (bytes[0] + 0x100 * bytes[1]) as u16
}

/// The number whose little-endian bytes are the first four of `bytes`.
pub open spec fn from_le32(bytes: Seq<u8>) -> u32 {
    (bytes[0] + 0x100 * bytes[1] + 0x1_0000 * bytes[2] + 0x100_0000 * bytes[3]) as u32
}

/// The number whose little-endian bytes are the first eight of `bytes`.
pub open spec fn from_le64(bytes: Seq<u8>) -> u64 {
    (from_le32(bytes) + 0x1_0000_0000 * from_le32(bytes.skip(4))) as u64
}

/// The unsigned byte with the bits of `v`.
pub open spec fn bits8(v: i8) -> u8 {
    if v >= 0 {
        v as u8
    } else {
        (v + 0x100) as u8
    }
}

/// The unsigned 16-bit integer with the bits of `v`.
pub open spec fn bits16(v: i16) -> u16 {
    if v >= 0 {
        v as u16
    } else {
        (v + 0x1_0000) as u16
    }
}

/// The unsigned 32-bit integer with the bits of `v`.
pub open spec fn bits32(v: i32) -> u32 {
    if v >= 0 {
        v as u32
    } else {
        (v + 0x1_0000_0000) as u32
    }
}

/// The unsigned 64-bit integer with the bits of `v`.
pub open spec fn bits64(v: i64) -> u64 {
    if v >= 0 {
        v as u64
    } else {
        (v + 0x1_0000_0000_0000_0000) as u64
    }
}

/// The signed byte with the bits `bits`.
pub open spec fn signed8(bits: u8) -> i8 {
    if bits < 0x80 {
        bits as i8
    } else {
        (bits - 0x100) as i8
    }
}

/// The signed 16-bit integer with the bits `bits`.
pub open spec fn signed16(bits: u16) -> i16 {
    if bits < 0x8000 {
        bits as i16
    } else {
        (bits - 0x1_0000) as i16
    }
}

/// The signed 32-bit integer with the bits `bits`.
pub open spec fn signed32(bits: u32) -> i32 {
    if bits < 0x8000_0000 {
        bits as i32
    } else {
        (bits - 0x1_0000_0000) as i32
    }
}

/// The signed 64-bit integer with the bits `bits`.
pub open spec fn signed64(bits: u64) -> i64 {
    if bits < 0x8000_0000_0000_0000 {
        bits as i64
    } else {
        (bits - 0x1_0000_0000_0000_0000) as i64
    }
}

/// What has to be written before the payload of the next value.
pub enum Obligation {
    /// Nothing is pending: writing a value now is a fault.
    Unset,
    /// The next value is the root: nothing precedes it.
    Root,
    /// The next value is a field with this name, in its wire form.
    Named(Seq<u8>),
    /// The next value is an element of a sequence. The first element carries
    /// the count.
    InSeq(Option<i32>),
}

impl Obligation {
    /// The name that follows the frame, if the obligation has one.
    pub open spec fn name(self) -> Seq<u8> {
        match self {
            Obligation::Named(name) => name,
            _ => Seq::empty(),
        }
    }
}

/// The bytes that discharge `pending` for a value of tag `tag`: the tag and
/// the name's length for a field, the tag and the count for the first element
/// of a sequence, nothing for the root and for later elements.
pub open spec fn frame(pending: Obligation, tag: u8) -> Result<Seq<u8>, Fault> {
    match pending {
        Obligation::Unset => Err(Fault::FieldInfoUnset),
        Obligation::Root => Ok(Seq::empty()),
        Obligation::Named(name) => if name.len() > MAX_NAME_LEN {
            Err(Fault::StrLen(name.len()))
        } else {
            Ok(seq![tag] + le16(name.len() as u16))
        },
        Obligation::InSeq(Some(count)) => Ok(seq![tag] + le32(bits32(count))),
        Obligation::InSeq(None) => Ok(Seq::empty()),
    }
}

/// Everything that precedes the payload: the frame, then the name of a field.
pub open spec fn head(pending: Obligation, tag: Tag) -> Result<Seq<u8>, Fault> {
    match frame(pending, tag.spec_code()) {
        Ok(bytes) => Ok(bytes + pending.name()),
        Err(fault) => Err(fault),
    }
}

/// `first` followed by `rest`, or the first fault of the two.
pub open spec fn chain(first: Result<Seq<u8>, Fault>, rest: Result<Seq<u8>, Fault>) -> Result<
    Seq<u8>,
    Fault,
> {
    match first {
        Err(fault) => Err(fault),
        Ok(bytes) => match rest {
            Err(fault) => Err(fault),
            Ok(more) => Ok(bytes + more),
        },
    }
}

/// The obligation under which element `index` of a sequence of `len`
/// elements is written.
pub open spec fn element_obligation(index: nat, len: nat) -> Obligation {
    if index == 0 {
        Obligation::InSeq(Some(len as i32))
    } else {
        Obligation::InSeq(None)
    }
}

/// The bytes of a text that is given by its wire bytes, written under
/// `pending`.
pub open spec fn raw_text_encoding(bytes: Seq<u8>, pending: Obligation) -> Result<Seq<u8>, Fault> {
    chain(head(pending, Tag::Str), Ok(bytes))
}

/// The bytes of `tree` written under `pending`, or the first fault met on
/// the way. Text is transcoded, and a sequence's length checked, before
/// anything of the value is written.
pub open spec fn encoding(tree: Tree, pending: Obligation) -> Result<Seq<u8>, Fault>
    decreases tree, 0nat,
{
    match tree {
        Tree::U8(v) => chain(head(pending, Tag::U8), Ok(seq![v])),
        Tree::U16(v) => chain(head(pending, Tag::U16), Ok(le16(v))),
        Tree::U32(v) => chain(head(pending, Tag::U32), Ok(le32(v))),
        Tree::U64(v) => chain(head(pending, Tag::U64), Ok(le64(v))),
        Tree::F32(bits) => chain(head(pending, Tag::F32), Ok(le32(bits))),
        Tree::F64(bits) => chain(head(pending, Tag::F64), Ok(le64(bits))),
        Tree::Bytes(bytes) => chain(head(pending, Tag::Bytes), Ok(bytes)),
        Tree::Str(text) => match wire_text(text) {
            None => Err(Fault::Transcode),
            Some(bytes) => raw_text_encoding(bytes, pending),
        },
        Tree::Sequence(items) => if items.len() > MAX_SEQ_LEN {
            Err(Fault::SeqLen(items.len()))
        } else {
            chain(head(pending, Tag::Sequence), elements_encoding(items, 0))
        },
        Tree::Compound(fields) => chain(
            head(pending, Tag::Compound),
            chain(fields_encoding(fields, 0), Ok(seq![0u8])),
        ),
    }
}

/// The bytes of the elements of `items` from index `from` on.
pub open spec fn elements_encoding(items: Seq<Tree>, from: nat) -> Result<Seq<u8>, Fault>
    decreases items, items.len() - from,
{
    if from >= items.len() {
        Ok(Seq::empty())
    } else {
        chain(
            encoding(items[from as int], element_obligation(from, items.len())),
            elements_encoding(items, from + 1),
        )
    }
}

/// The bytes of the fields of `fields` from index `from` on, without the
/// byte that closes the compound.
pub open spec fn fields_encoding(fields: Seq<(Seq<char>, Tree)>, from: nat) -> Result<
    Seq<u8>,
    Fault,
>
    decreases fields, fields.len() - from,
{
    if from >= fields.len() {
        Ok(Seq::empty())
    } else {
        match wire_text(fields[from as int].0) {
            None => Err(Fault::Transcode),
            Some(name) => chain(
                encoding(fields[from as int].1, Obligation::Named(name)),
                fields_encoding(fields, from + 1),
            ),
        }
    }
}

/// The document that holds `tree` as its root.
pub open spec fn document(tree: Tree) -> Result<Seq<u8>, Fault> {
    chain(Ok(header()), encoding(tree, Obligation::Root))
}

/// What a successful parse gives: the value and the input that follows it.
pub type Parsed<T> = Result<(T, Seq<u8>), Fault>;

/// What the header of `input` says: the flags byte and the input after the
/// header. A wrong magic number or version is reported as soon as six bytes
/// are there to compare.
pub open spec fn parse_header(input: Seq<u8>) -> Parsed<u8> {
    if input.len() >= 6 && input.take(6) != magic() {
        Err(Fault::InvalidHeader)
    } else if input.len() < 7 {
        Err(Fault::Eof)
    } else {
        Ok((input[6], input.skip(7)))
    }
}

/// The number of bytes at the start of `input` that belong to a text: all
/// of them up to the first zero byte, which modified UTF-8 never holds, or
/// up to the end.
pub open spec fn text_len(input: Seq<u8>) -> nat
    decreases input.len(),
{
    if input.len() == 0 || input[0] == 0 {
        0
    } else {
        1 + text_len(input.skip(1))
    }
}

/// One byte.
pub open spec fn parse_u8(input: Seq<u8>) -> Parsed<u8> {
    if input.len() < 1 {
        Err(Fault::Eof)
    } else {
        Ok((input[0], input.skip(1)))
    }
}

/// Two bytes, least significant first.
pub open spec fn parse_u16(input: Seq<u8>) -> Parsed<u16> {
    if input.len() < 2 {
        Err(Fault::Eof)
    } else {
        Ok((from_le16(input), input.skip(2)))
    }
}

/// Four bytes, least significant first.
pub open spec fn parse_u32(input: Seq<u8>) -> Parsed<u32> {
    if input.len() < 4 {
        Err(Fault::Eof)
    } else {
        Ok((from_le32(input), input.skip(4)))
    }
}

/// Eight bytes, least significant first.
pub open spec fn parse_u64(input: Seq<u8>) -> Parsed<u64> {
    if input.len() < 8 {
        Err(Fault::Eof)
    } else {
        Ok((from_le64(input), input.skip(8)))
    }
}

/// One byte, read as a signed integer.
pub open spec fn parse_i8(input: Seq<u8>) -> Parsed<i8> {
    match parse_u8(input) {
        Err(fault) => Err(fault),
        Ok((bits, rest)) => Ok((signed8(bits), rest)),
    }
}

/// Two bytes, read as a signed integer.
pub open spec fn parse_i16(input: Seq<u8>) -> Parsed<i16> {
    match parse_u16(input) {
        Err(fault) => Err(fault),
        Ok((bits, rest)) => Ok((signed16(bits), rest)),
    }
}

/// Four bytes, read as a signed integer.
pub open spec fn parse_i32(input: Seq<u8>) -> Parsed<i32> {
    match parse_u32(input) {
        Err(fault) => Err(fault),
        Ok((bits, rest)) => Ok((signed32(bits), rest)),
    }
}

/// Eight bytes, read as a signed integer.
pub open spec fn parse_i64(input: Seq<u8>) -> Parsed<i64> {
    match parse_u64(input) {
        Err(fault) => Err(fault),
        Ok((bits, rest)) => Ok((signed64(bits), rest)),
    }
}

/// One byte, read as a boolean: zero is false, anything else true.
pub open spec fn parse_bool(input: Seq<u8>) -> Parsed<bool> {
    match parse_u8(input) {
        Err(fault) => Err(fault),
        Ok((byte, rest)) => Ok((byte != 0, rest)),
    }
}

/// A blob has no length of its own: it is all of the input.
pub open spec fn parse_bytes(input: Seq<u8>) -> Parsed<Seq<u8>> {
    Ok((input, Seq::empty()))
}

/// The wire bytes of a text: they end before the first zero byte, which is
/// left in place, or at the end of the input.
pub open spec fn parse_raw_text(input: Seq<u8>) -> Parsed<Seq<u8>> {
    let n = text_len(input) as int;
    Ok((input.take(n), input.skip(n)))
}

/// A text: its wire bytes, transcoded.
pub open spec fn parse_text(input: Seq<u8>) -> Parsed<Seq<char>> {
    match parse_raw_text(input) {
        Err(fault) => Err(fault),
        Ok((bytes, rest)) => match text_of_wire(bytes) {
            None => Err(Fault::Transcode),
            Some(text) => Ok((text, rest)),
        },
    }
}

/// A text of exactly one character.
pub open spec fn parse_char(input: Seq<u8>) -> Parsed<char> {
    match parse_text(input) {
        Err(fault) => Err(fault),
        Ok((text, rest)) => if text.len() == 1 {
            Ok((text[0], rest))
        } else {
            Err(Fault::Message)
        },
    }
}

/// The value of tag `tag` whose payload opens `input`.
pub open spec fn parse_payload(tag: Tag, input: Seq<u8>) -> Parsed<Tree>
    decreases input.len(), 1nat, 0nat,
{
    match tag {
        Tag::End => Err(Fault::UnrecognizedTag(0)),
        Tag::U8 => match parse_u8(input) {
            Err(fault) => Err(fault),
            Ok((v, rest)) => Ok((Tree::U8(v), rest)),
        },
        Tag::U16 => match parse_u16(input) {
            Err(fault) => Err(fault),
            Ok((v, rest)) => Ok((Tree::U16(v), rest)),
        },
        Tag::U32 => match parse_u32(input) {
            Err(fault) => Err(fault),
            Ok((v, rest)) => Ok((Tree::U32(v), rest)),
        },
        Tag::U64 => match parse_u64(input) {
            Err(fault) => Err(fault),
            Ok((v, rest)) => Ok((Tree::U64(v), rest)),
        },
        Tag::F32 => match parse_u32(input) {
            Err(fault) => Err(fault),
            Ok((bits, rest)) => Ok((Tree::F32(bits), rest)),
        },
        Tag::F64 => match parse_u64(input) {
            Err(fault) => Err(fault),
            Ok((bits, rest)) => Ok((Tree::F64(bits), rest)),
        },
        Tag::Bytes => match parse_bytes(input) {
            Err(fault) => Err(fault),
            Ok((bytes, rest)) => Ok((Tree::Bytes(bytes), rest)),
        },
        Tag::Str => match parse_text(input) {
            Err(fault) => Err(fault),
            Ok((text, rest)) => Ok((Tree::Str(text), rest)),
        },
        Tag::Sequence => match parse_sequence_header(input) {
            Err(fault) => Err(fault),
            Ok(((element, count), rest)) => match parse_elements(element, count, rest) {
                Err(fault) => Err(fault),
                Ok((items, rest)) => Ok((Tree::Sequence(items), rest)),
            },
        },
        Tag::Compound => match parse_fields(input) {
            Err(fault) => Err(fault),
            Ok((fields, rest)) => Ok((Tree::Compound(fields), rest)),
        },
    }
}

/// The element tag and the count that open the payload of a sequence. The
/// element tag must be the tag of a value, and the count must not be
/// negative.
pub open spec fn parse_sequence_header(input: Seq<u8>) -> Parsed<(Tag, nat)> {
    if input.len() < 1 {
        Err(Fault::Eof)
    } else {
        match Tag::spec_from_code(input[0]) {
            None => Err(Fault::UnrecognizedTag(input[0])),
            Some(Tag::End) => Err(Fault::UnrecognizedTag(input[0])),
            Some(element) => if input.len() < 5 {
                Err(Fault::Eof)
            } else {
                let count = from_le32(input.skip(1));
                if count > MAX_SEQ_LEN {
                    Err(Fault::SeqLen(count as nat))
                } else {
                    Ok(((element, count as nat), input.skip(5)))
                }
            },
        }
    }
}

/// `parsed` with `front` put before what it found.
pub open spec fn with_front<T>(front: Seq<T>, parsed: Parsed<Seq<T>>) -> Parsed<Seq<T>> {
    match parsed {
        Err(fault) => Err(fault),
        Ok((more, rest)) => Ok((front + more, rest)),
    }
}

/// `count` values of tag `tag`, one after another.
pub open spec fn parse_elements(tag: Tag, count: nat, input: Seq<u8>) -> Parsed<Seq<Tree>>
    decreases input.len(), 2nat, count,
{
    if count == 0 {
        Ok((Seq::empty(), input))
    } else {
        match parse_payload(tag, input) {
            Err(fault) => Err(fault),
            Ok((first, rest)) => if rest.len() <= input.len() {
                with_front(seq![first], parse_elements(tag, (count - 1) as nat, rest))
            } else {
                // A payload is never followed by more than it was given.
                Err(Fault::Eof)
            },
        }
    }
}

/// The tag and the wire bytes of the name that open a field, or `None` for
/// the tag where the terminator stands. The terminator is consumed.
pub open spec fn parse_raw_field_header(input: Seq<u8>) -> Parsed<Option<(Tag, Seq<u8>)>> {
    if input.len() < 1 {
        Err(Fault::Eof)
    } else {
        match Tag::spec_from_code(input[0]) {
            None => Err(Fault::UnrecognizedTag(input[0])),
            Some(Tag::End) => Ok((None, input.skip(1))),
            Some(tag) => if input.len() < 3 {
                Err(Fault::Eof)
            } else {
                let n = from_le16(input.skip(1)) as int;
                if input.len() < 3 + n {
                    Err(Fault::Eof)
                } else {
                    Ok((Some((tag, input.subrange(3, 3 + n))), input.skip(3 + n)))
                }
            },
        }
    }
}

/// The tag and the name that open a field, or `None` for the tag where the
/// terminator stands: what `parse_raw_field_header` finds, with the name
/// transcoded.
pub open spec fn parse_field_header(input: Seq<u8>) -> Parsed<Option<(Tag, Seq<char>)>> {
    match parse_raw_field_header(input) {
        Err(fault) => Err(fault),
        Ok((None, rest)) => Ok((None, rest)),
        Ok((Some((tag, bytes)), rest)) => match text_of_wire(bytes) {
            None => Err(Fault::Transcode),
            Some(name) => Ok((Some((tag, name)), rest)),
        },
    }
}

/// The fields of a compound, up to and with its terminator.
pub open spec fn parse_fields(input: Seq<u8>) -> Parsed<Seq<(Seq<char>, Tree)>>
    decreases input.len(), 0nat, 0nat,
{
    match parse_field_header(input) {
        Err(fault) => Err(fault),
        Ok((None, rest)) => Ok((Seq::empty(), rest)),
        Ok((Some((tag, name)), rest)) => match parse_payload(tag, rest) {
            Err(fault) => Err(fault),
            Ok((value, rest2)) => if rest2.len() <= rest.len() {
                with_front(seq![(name, value)], parse_fields(rest2))
            } else {
                // A payload is never followed by more than it was given.
                Err(Fault::Eof)
            },
        },
    }
}

/// The root value of the document `input`, read as a value of tag `tag`.
/// What follows the root is not looked at.
pub open spec fn parse_document(tag: Tag, input: Seq<u8>) -> Result<Tree, Fault> {
    match parse_header(input) {
        Err(fault) => Err(fault),
        Ok((_, rest)) => match parse_payload(tag, rest) {
            Err(fault) => Err(fault),
            Ok((tree, _)) => Ok(tree),
        },
    }
}

/// A run of `n` bytes without a zero, followed by a zero or by the end, is
/// the text at the start of `input`.
pub proof fn lemma_text_len(input: Seq<u8>, n: nat)
    requires
        n <= input.len(),
        forall|i: int| 0 <= i < n ==> input[i] != 0,
        n == input.len() || input[n as int] == 0,
    ensures
        text_len(input) == n,
    decreases n,
{
    if n > 0 {
        lemma_text_len(input.skip(1), (n - 1) as nat);
    }
}

} // verus!

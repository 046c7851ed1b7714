//! The encoder: the field context and the serializer that writes through it.

use vstd::prelude::*;
use crate::error::{Error, Fault};
use crate::laws::{fault_of_writing, lemma_faults_of_encoding};
use crate::tag::Tag;
use crate::transcode::{char_to_string, encode_text, wire_text};
use crate::value::{
    field_trees, item_trees, lemma_field_trees, lemma_item_trees, Field, Tree, Value,
};
use crate::wire::{
    bits16, bits32, bits64, bits8, chain, document, element_obligation, elements_encoding,
    encoding, fields_encoding, frame, head, header, le16, le32, le64, raw_text_encoding,
    Obligation, FLAGS, MAX_NAME_LEN, MAX_SEQ_LEN,
};

verus! {

/// Appends the two little-endian bytes of `x`.
fn push_le16(w: &mut Vec<u8>, x: u16)
    ensures
        final(w)@ == old(w)@ + le16(x),
{
    w.push((x % 256) as u8);
    w.push((x / 256) as u8);
    assert(w@ =~= old(w)@ + le16(x));
}

/// Appends the four little-endian bytes of `x`.
fn push_le32(w: &mut Vec<u8>, x: u32)
    ensures
        final(w)@ == old(w)@ + le32(x),
{
    w.push((x % 256) as u8);
    w.push((x / 0x100 % 256) as u8);
    w.push((x / 0x1_0000 % 256) as u8);
    w.push((x / 0x100_0000) as u8);
    assert(w@ =~= old(w)@ + le32(x));
}

/// Appends the eight little-endian bytes of `x`.
fn push_le64(w: &mut Vec<u8>, x: u64)
    ensures
        final(w)@ == old(w)@ + le64(x),
{
    push_le32(w, (x % 0x1_0000_0000) as u32);
    push_le32(w, (x / 0x1_0000_0000) as u32);
    assert(w@ =~= old(w)@ + le64(x));
}

/// Appends `bytes` as they are.
fn push_all(w: &mut Vec<u8>, bytes: &[u8])
    ensures
        final(w)@ == old(w)@ + bytes@,
{
    let mut i: usize = 0;
    while i < bytes.len()
        invariant
            i <= bytes.len(),
            w@ == old(w)@ + bytes@.subrange(0, i as int),
        decreases bytes.len() - i,
    {
        w.push(bytes[i]);
        i += 1;
        assert(w@ =~= old(w)@ + bytes@.subrange(0, i as int));
    }
    assert(bytes@.subrange(0, i as int) =~= bytes@);
}

/// Writes the header: the magic number and version, then the flags byte.
pub fn write_header(w: &mut Vec<u8>)
    ensures
        final(w)@ == old(w)@ + header(),
{
    w.push(0xad);
    w.push(0x4e);
    w.push(0x42);
    w.push(0x54);
    w.push(0x00);
    w.push(0x04);
    w.push(FLAGS);
    assert(w@ =~= old(w)@ + header());
}

/// The field context: what the encoder owes the wire before the payload of
/// the next value.
#[derive(Debug)]
pub enum FieldInfo {
    /// Nothing is pending.
    Unset,
    /// The next value is the root.
    Root,
    /// The next value is a field with this name, already in its wire form.
    Named(Vec<u8>),
    /// The next value is an element of a sequence; the first element carries
    /// the count.
    InSeq(Option<i32>),
}

impl View for FieldInfo {
    type V = Obligation;

    open spec fn view(&self) -> Obligation {
        match self {
            FieldInfo::Unset => Obligation::Unset,
            FieldInfo::Root => Obligation::Root,
            FieldInfo::Named(name) => Obligation::Named(name@),
            FieldInfo::InSeq(count) => Obligation::InSeq(*count),
        }
    }
}

impl FieldInfo {
    /// Discharges the obligation for a value of tag `tag`: writes its frame
    /// to `w`, or fails and writes nothing. Either way nothing is pending
    /// afterwards.
    pub fn write(&mut self, tag: u8, w: &mut Vec<u8>) -> (r: Result<(), Error>)
        ensures
            final(self)@ == Obligation::Unset,
            match frame(old(self)@, tag) {
                Ok(bytes) => r is Ok && final(w)@ == old(w)@ + bytes,
                Err(fault) => r matches Err(e) && e@ == fault && final(w)@ == old(w)@,
            },
    {
        let result = match &*self {
            FieldInfo::Unset => Err(Error::FieldInfoUnset),
            FieldInfo::Root => Ok(()),
            FieldInfo::InSeq(size) => {
                if let Some(x) = size {
                    let bits: u32 = if *x >= 0 {
                        *x as u32
                    } else {
                        (*x as i64 + 0x1_0000_0000) as u32
                    };
                    w.push(tag);
                    push_le32(w, bits);
                    assert(w@ =~= old(w)@ + (seq![tag] + le32(bits32(*x))));
                }
                Ok(())
            },
            FieldInfo::Named(name) => {
                let len = name.len();
                if len > MAX_NAME_LEN {
                    Err(Error::StrLen(len))
                } else {
                    w.push(tag);
                    push_le16(w, len as u16);
                    assert(w@ =~= old(w)@ + (seq![tag] + le16(len as u16)));
                    Ok(())
                }
            },
        };
        *self = FieldInfo::Unset;
        result
    }
}

/// Writes a document value by value. Before each value the caller says what
/// the value is (the root, a field, an element); the serializer then owes
/// the wire the matching frame and writes it with the value.
#[derive(Debug)]
pub struct Serializer {
    output: Vec<u8>,
    field_info: FieldInfo,
}

impl Serializer {
    /// Everything written so far.
    pub closed spec fn written(&self) -> Seq<u8> {
        self.output@
    }

    /// What is owed before the payload of the next value.
    pub closed spec fn pending(&self) -> Obligation {
        self.field_info@
    }

    /// `r` reports `expected` for a write that is all or nothing: on success
    /// the bytes were appended, on a fault nothing was written.
    pub open spec fn wrote(
        before: Serializer,
        after: Serializer,
        r: Result<(), Error>,
        expected: Result<Seq<u8>, Fault>,
    ) -> bool {
        match expected {
            Ok(bytes) => r is Ok && after.written() == before.written() + bytes,
            Err(fault) => r matches Err(e) && e@ == fault && after.written() == before.written(),
        }
    }

    /// `r` reports `expected` for a write in several steps: on success the
    /// bytes were appended, on a fault what had been written before it stays.
    pub open spec fn wrote_some(
        before: Serializer,
        after: Serializer,
        r: Result<(), Error>,
        expected: Result<Seq<u8>, Fault>,
    ) -> bool {
        match expected {
            Ok(bytes) => r is Ok && after.written() == before.written() + bytes,
            Err(fault) => r matches Err(e) && e@ == fault && before.written().is_prefix_of(
                after.written(),
            ),
        }
    }

    /// Starts a document in `output`: appends the header and expects the root.
    pub fn new(output: Vec<u8>) -> (r: Result<Serializer, Error>)
        ensures
            r matches Ok(s) && s.written() == output@ + header() && s.pending()
                == Obligation::Root,
    {
        let mut output = output;
        write_header(&mut output);
        Ok(Serializer { output, field_info: FieldInfo::Root })
    }

    /// Hands back the buffer with everything written.
    pub fn into_inner(self) -> (output: Vec<u8>)
        ensures
            output@ == self.written(),
    {
        self.output
    }

    /// Writes what precedes the payload of a value of tag `tag`: the frame
    /// that the field context owes, then the name of a field.
    fn discharge(&mut self, tag: Tag) -> (r: Result<(), Error>)
        ensures
            final(self).pending() == Obligation::Unset,
            Self::wrote(*old(self), *final(self), r, head(old(self).pending(), tag)),
    {
        let mut name: Vec<u8> = Vec::new();
        if let FieldInfo::Named(bytes) = &self.field_info {
            push_all(&mut name, bytes.as_slice());
        }
        assert(name@ =~= old(self).pending().name());
        self.field_info.write(tag.code(), &mut self.output)?;
        self.output.append(&mut name);
        proof {
            let bytes = frame(old(self).pending(), tag.spec_code())->Ok_0;
            assert(self.output@ =~= old(self).output@ + (bytes + old(self).pending().name()));
        }
        Ok(())
    }

    /// Writes an 8-bit unsigned integer.
    pub fn serialize_u8(&mut self, v: u8) -> (r: Result<(), Error>)
        ensures
            final(self).pending() == Obligation::Unset,
            Self::wrote(*old(self), *final(self), r, encoding(Tree::U8(v), old(self).pending())),
    {
        self.discharge(Tag::U8)?;
        self.output.push(v);
        proof {
            let h = head(old(self).pending(), Tag::U8)->Ok_0;
            assert(self.output@ =~= old(self).output@ + (h + seq![v]));
        }
        Ok(())
    }

    /// Writes a 16-bit unsigned integer.
    pub fn serialize_u16(&mut self, v: u16) -> (r: Result<(), Error>)
        ensures
            final(self).pending() == Obligation::Unset,
            Self::wrote(*old(self), *final(self), r, encoding(Tree::U16(v), old(self).pending())),
    {
        self.discharge(Tag::U16)?;
        push_le16(&mut self.output, v);
        proof {
            let h = head(old(self).pending(), Tag::U16)->Ok_0;
            assert(self.output@ =~= old(self).output@ + (h + le16(v)));
        }
        Ok(())
    }

    /// Writes a 32-bit unsigned integer.
    pub fn serialize_u32(&mut self, v: u32) -> (r: Result<(), Error>)
        ensures
            final(self).pending() == Obligation::Unset,
            Self::wrote(*old(self), *final(self), r, encoding(Tree::U32(v), old(self).pending())),
    {
        self.discharge(Tag::U32)?;
        push_le32(&mut self.output, v);
        proof {
            let h = head(old(self).pending(), Tag::U32)->Ok_0;
            assert(self.output@ =~= old(self).output@ + (h + le32(v)));
        }
        Ok(())
    }

    /// Writes a 64-bit unsigned integer.
    pub fn serialize_u64(&mut self, v: u64) -> (r: Result<(), Error>)
        ensures
            final(self).pending() == Obligation::Unset,
            Self::wrote(*old(self), *final(self), r, encoding(Tree::U64(v), old(self).pending())),
    {
        self.discharge(Tag::U64)?;
        push_le64(&mut self.output, v);
        proof {
            let h = head(old(self).pending(), Tag::U64)->Ok_0;
            assert(self.output@ =~= old(self).output@ + (h + le64(v)));
        }
        Ok(())
    }

    /// Writes a 32-bit float, given by its IEEE 754 bits.
    pub fn serialize_f32(&mut self, bits: u32) -> (r: Result<(), Error>)
        ensures
            final(self).pending() == Obligation::Unset,
            Self::wrote(
                *old(self),
                *final(self),
                r,
                encoding(Tree::F32(bits), old(self).pending()),
            ),
    {
        self.discharge(Tag::F32)?;
        push_le32(&mut self.output, bits);
        proof {
            let h = head(old(self).pending(), Tag::F32)->Ok_0;
            assert(self.output@ =~= old(self).output@ + (h + le32(bits)));
        }
        Ok(())
    }

    /// Writes a 64-bit float, given by its IEEE 754 bits.
    pub fn serialize_f64(&mut self, bits: u64) -> (r: Result<(), Error>)
        ensures
            final(self).pending() == Obligation::Unset,
            Self::wrote(
                *old(self),
                *final(self),
                r,
                encoding(Tree::F64(bits), old(self).pending()),
            ),
    {
        self.discharge(Tag::F64)?;
        push_le64(&mut self.output, bits);
        proof {
            let h = head(old(self).pending(), Tag::F64)->Ok_0;
            assert(self.output@ =~= old(self).output@ + (h + le64(bits)));
        }
        Ok(())
    }

    /// Writes a boolean as the byte 0 or 1.
    pub fn serialize_bool(&mut self, v: bool) -> (r: Result<(), Error>)
        ensures
            final(self).pending() == Obligation::Unset,
            Self::wrote(
                *old(self),
                *final(self),
                r,
                encoding(Tree::U8(if v { 1u8 } else { 0u8 }), old(self).pending()),
            ),
    {
        self.serialize_u8(if v { 1 } else { 0 })
    }

    /// Writes a signed byte as the unsigned byte with the same bits.
    pub fn serialize_i8(&mut self, v: i8) -> (r: Result<(), Error>)
        ensures
            final(self).pending() == Obligation::Unset,
            Self::wrote(
                *old(self),
                *final(self),
                r,
                encoding(Tree::U8(bits8(v)), old(self).pending()),
            ),
    {
        let bits: u8 = if v >= 0 {
            v as u8
        } else {
            (v as i16 + 0x100) as u8
        };
        self.serialize_u8(bits)
    }

    /// Writes a signed 16-bit integer as the unsigned one with the same bits.
    pub fn serialize_i16(&mut self, v: i16) -> (r: Result<(), Error>)
        ensures
            final(self).pending() == Obligation::Unset,
            Self::wrote(
                *old(self),
                *final(self),
                r,
                encoding(Tree::U16(bits16(v)), old(self).pending()),
            ),
    {
        let bits: u16 = if v >= 0 {
            v as u16
        } else {
            (v as i32 + 0x1_0000) as u16
        };
        self.serialize_u16(bits)
    }

    /// Writes a signed 32-bit integer as the unsigned one with the same bits.
    pub fn serialize_i32(&mut self, v: i32) -> (r: Result<(), Error>)
        ensures
            final(self).pending() == Obligation::Unset,
            Self::wrote(
                *old(self),
                *final(self),
                r,
                encoding(Tree::U32(bits32(v)), old(self).pending()),
            ),
    {
        let bits: u32 = if v >= 0 {
            v as u32
        } else {
            (v as i64 + 0x1_0000_0000) as u32
        };
        self.serialize_u32(bits)
    }

    /// Writes a signed 64-bit integer as the unsigned one with the same bits.
    pub fn serialize_i64(&mut self, v: i64) -> (r: Result<(), Error>)
        ensures
            final(self).pending() == Obligation::Unset,
            Self::wrote(
                *old(self),
                *final(self),
                r,
                encoding(Tree::U64(bits64(v)), old(self).pending()),
            ),
    {
        let bits: u64 = if v >= 0 {
            v as u64
        } else {
            (v as i128 + 0x1_0000_0000_0000_0000) as u64
        };
        self.serialize_u64(bits)
    }

    /// Refuses a signed 128-bit integer: the format has no tag for it.
    pub fn serialize_i128(&mut self, v: i128) -> (r: Result<(), Error>)
        ensures
            Self::refused(*old(self), *final(self), r),
    {
        Err(Error::Unsupported)
    }

    /// Refuses an unsigned 128-bit integer: the format has no tag for it.
    pub fn serialize_u128(&mut self, v: u128) -> (r: Result<(), Error>)
        ensures
            Self::refused(*old(self), *final(self), r),
    {
        Err(Error::Unsupported)
    }

    /// Writes a byte blob as it is, without a length.
    pub fn serialize_bytes(&mut self, v: &[u8]) -> (r: Result<(), Error>)
        ensures
            final(self).pending() == Obligation::Unset,
            Self::wrote(
                *old(self),
                *final(self),
                r,
                encoding(Tree::Bytes(v@), old(self).pending()),
            ),
    {
        self.discharge(Tag::Bytes)?;
        push_all(&mut self.output, v);
        proof {
            let h = head(old(self).pending(), Tag::Bytes)->Ok_0;
            assert(self.output@ =~= old(self).output@ + (h + v@));
        }
        Ok(())
    }

    /// Writes a text that is given by its wire bytes.
    pub fn serialize_raw_str(&mut self, v: &[u8]) -> (r: Result<(), Error>)
        ensures
            final(self).pending() == Obligation::Unset,
            Self::wrote(*old(self), *final(self), r, raw_text_encoding(v@, old(self).pending())),
    {
        self.discharge(Tag::Str)?;
        push_all(&mut self.output, v);
        proof {
            let h = head(old(self).pending(), Tag::Str)->Ok_0;
            assert(self.output@ =~= old(self).output@ + (h + v@));
        }
        Ok(())
    }

    /// Writes a text. The text is transcoded first: where that fails,
    /// nothing is written and the obligation stays pending.
    pub fn serialize_str(&mut self, v: &str) -> (r: Result<(), Error>)
        ensures
            final(self).pending() == if wire_text(v@) is Some {
                Obligation::Unset
            } else {
                old(self).pending()
            },
            Self::wrote(*old(self), *final(self), r, encoding(Tree::Str(v@), old(self).pending())),
    {
        match encode_text(v) {
            Err(message) => Err(Error::Mutf8(message)),
            Ok(bytes) => self.serialize_raw_str(bytes.as_slice()),
        }
    }

    /// Writes a character as the text that holds it alone.
    pub fn serialize_char(&mut self, v: char) -> (r: Result<(), Error>)
        ensures
            final(self).pending() == if wire_text(seq![v]) is Some {
                Obligation::Unset
            } else {
                old(self).pending()
            },
            Self::wrote(
                *old(self),
                *final(self),
                r,
                encoding(Tree::Str(seq![v]), old(self).pending()),
            ),
    {
        let text = char_to_string(v);
        self.serialize_str(text.as_str())
    }

    /// Opens a sequence of `len` elements: writes what precedes it and owes
    /// the first element the count. A sequence of unknown length, or of more
    /// elements than the count can hold, is refused before anything is
    /// written.
    pub fn serialize_seq(&mut self, len: Option<usize>) -> (r: Result<(), Error>)
        ensures
            match len {
                None => r matches Err(e) && e@ == Fault::Unsupported && *final(self) == *old(self),
                Some(n) => if n > MAX_SEQ_LEN {
                    r matches Err(e) && e@ == Fault::SeqLen(n as nat) && *final(self) == *old(self)
                } else {
                    &&& Self::wrote(
                        *old(self),
                        *final(self),
                        r,
                        head(old(self).pending(), Tag::Sequence),
                    )
                    &&& final(self).pending() == if r is Ok {
                        Obligation::InSeq(Some(n as i32))
                    } else {
                        Obligation::Unset
                    }
                },
            },
    {
        match len {
            None => Err(Error::Unsupported),
            Some(n) => {
                if n > MAX_SEQ_LEN {
                    return Err(Error::SeqLen(n));
                }
                self.discharge(Tag::Sequence)?;
                self.field_info = FieldInfo::InSeq(Some(n as i32));
                Ok(())
            },
        }
    }

    /// Announces the next element of the open sequence. The first element
    /// keeps the count that `serialize_seq` left; every later one is owed
    /// nothing.
    pub fn serialize_element(&mut self) -> (r: Result<(), Error>)
        ensures
            r is Ok,
            final(self).written() == old(self).written(),
            final(self).pending() == if old(self).pending() matches Obligation::InSeq(Some(_)) {
                old(self).pending()
            } else {
                Obligation::InSeq(None)
            },
    {
        match &self.field_info {
            FieldInfo::InSeq(Some(_)) => {},
            _ => {
                self.field_info = FieldInfo::InSeq(None);
            },
        }
        Ok(())
    }

    /// Closes the open sequence: nothing is written, nothing stays pending.
    pub fn end_seq(&mut self) -> (r: Result<(), Error>)
        ensures
            r is Ok,
            final(self).written() == old(self).written(),
            final(self).pending() == Obligation::Unset,
    {
        self.field_info = FieldInfo::Unset;
        Ok(())
    }

    /// Opens a compound: writes what precedes it. The root compound is
    /// preceded by nothing. Neither the name of the type nor the number of
    /// fields is written.
    pub fn serialize_struct(&mut self, name: &str, len: usize) -> (r: Result<(), Error>)
        ensures
            final(self).pending() == Obligation::Unset,
            Self::wrote(*old(self), *final(self), r, head(old(self).pending(), Tag::Compound)),
    {
        self.discharge(Tag::Compound)
    }

    /// Announces the next field of the open compound by the wire bytes of
    /// its name: the value that follows is written under that name.
    pub fn serialize_raw_field(&mut self, key: Vec<u8>) -> (r: Result<(), Error>)
        ensures
            r is Ok,
            final(self).written() == old(self).written(),
            final(self).pending() == Obligation::Named(key@),
    {
        self.field_info = FieldInfo::Named(key);
        Ok(())
    }

    /// Announces the next field of the open compound: the value that follows
    /// is written under the name `key`. Where the name cannot be transcoded
    /// nothing changes.
    pub fn serialize_field(&mut self, key: &str) -> (r: Result<(), Error>)
        ensures
            final(self).written() == old(self).written(),
            match wire_text(key@) {
                Some(name) => r is Ok && final(self).pending() == Obligation::Named(name),
                None => r matches Err(e) && e@ == Fault::Transcode && final(self).pending()
                    == old(self).pending(),
            },
    {
        match encode_text(key) {
            Ok(name) => self.serialize_raw_field(name),
            Err(message) => Err(Error::Mutf8(message)),
        }
    }

    /// Closes the open compound with the terminator byte.
    pub fn end(&mut self) -> (r: Result<(), Error>)
        ensures
            r is Ok,
            final(self).written() == old(self).written().push(0u8),
            final(self).pending() == Obligation::Unset,
    {
        self.output.push(0);
        self.field_info = FieldInfo::Unset;
        Ok(())
    }

    /// `r` refuses a kind of value for which the format has no framing:
    /// nothing is written and the obligation stays pending.
    pub open spec fn refused(before: Serializer, after: Serializer, r: Result<(), Error>) -> bool {
        r matches Err(e) && e@ == Fault::Unsupported && after == before
    }

    /// Refuses a map: the format frames only records with known field names.
    pub fn serialize_map(&mut self, len: Option<usize>) -> (r: Result<(), Error>)
        ensures
            Self::refused(*old(self), *final(self), r),
    {
        Err(Error::Unsupported)
    }

    /// Refuses an absent optional value.
    pub fn serialize_none(&mut self) -> (r: Result<(), Error>)
        ensures
            Self::refused(*old(self), *final(self), r),
    {
        Err(Error::Unsupported)
    }

    /// Refuses a present optional value.
    pub fn serialize_some(&mut self) -> (r: Result<(), Error>)
        ensures
            Self::refused(*old(self), *final(self), r),
    {
        Err(Error::Unsupported)
    }

    /// Refuses the unit value.
    pub fn serialize_unit(&mut self) -> (r: Result<(), Error>)
        ensures
            Self::refused(*old(self), *final(self), r),
    {
        Err(Error::Unsupported)
    }

    /// Refuses a unit struct.
    pub fn serialize_unit_struct(&mut self, name: &str) -> (r: Result<(), Error>)
        ensures
            Self::refused(*old(self), *final(self), r),
    {
        Err(Error::Unsupported)
    }

    /// Refuses a variant without fields.
    pub fn serialize_unit_variant(
        &mut self,
        name: &str,
        variant_index: u32,
        variant: &str,
    ) -> (r: Result<(), Error>)
        ensures
            Self::refused(*old(self), *final(self), r),
    {
        Err(Error::Unsupported)
    }

    /// Refuses a variant with one unnamed field.
    pub fn serialize_newtype_variant(
        &mut self,
        name: &str,
        variant_index: u32,
        variant: &str,
    ) -> (r: Result<(), Error>)
        ensures
            Self::refused(*old(self), *final(self), r),
    {
        Err(Error::Unsupported)
    }

    /// Refuses a tuple.
    pub fn serialize_tuple(&mut self, len: usize) -> (r: Result<(), Error>)
        ensures
            Self::refused(*old(self), *final(self), r),
    {
        Err(Error::Unsupported)
    }

    /// Refuses a tuple struct.
    pub fn serialize_tuple_struct(&mut self, name: &str, len: usize) -> (r: Result<(), Error>)
        ensures
            Self::refused(*old(self), *final(self), r),
    {
        Err(Error::Unsupported)
    }

    /// Refuses a variant with unnamed fields.
    pub fn serialize_tuple_variant(
        &mut self,
        name: &str,
        variant_index: u32,
        variant: &str,
        len: usize,
    ) -> (r: Result<(), Error>)
        ensures
            Self::refused(*old(self), *final(self), r),
    {
        Err(Error::Unsupported)
    }

    /// Refuses a variant with named fields.
    pub fn serialize_struct_variant(
        &mut self,
        name: &str,
        variant_index: u32,
        variant: &str,
        len: usize,
    ) -> (r: Result<(), Error>)
        ensures
            Self::refused(*old(self), *final(self), r),
    {
        Err(Error::Unsupported)
    }

    /// Writes a whole value tree under the pending obligation.
    pub fn serialize_value(&mut self, value: &Value) -> (r: Result<(), Error>)
        ensures
            Self::wrote_some(*old(self), *final(self), r, encoding(value@, old(self).pending())),
            r is Ok ==> final(self).pending() == Obligation::Unset,
            head(old(self).pending(), value@.tag()) is Err ==> final(self).written() == old(
                self,
            ).written(),
        decreases value, 1nat,
    {
        proof {
            lemma_extends(self.written(), Seq::empty());
        }
        match value {
            Value::U8(v) => self.serialize_u8(*v),
            Value::U16(v) => self.serialize_u16(*v),
            Value::U32(v) => self.serialize_u32(*v),
            Value::U64(v) => self.serialize_u64(*v),
            Value::F32(bits) => self.serialize_f32(*bits),
            Value::F64(bits) => self.serialize_f64(*bits),
            Value::Bytes(bytes) => self.serialize_bytes(bytes.as_slice()),
            Value::Str(text) => self.serialize_str(text.as_str()),
            Value::Sequence(items) => {
                proof {
                    lemma_item_trees(items@);
                }
                let ghost h = head(self.pending(), Tag::Sequence);
                let ghost b = elements_encoding(item_trees(items@), 0);
                match self.serialize_seq(Some(items.len())) {
                    Err(e) => {
                        return Err(e);
                    },
                    Ok(()) => {},
                }
                let ghost opened = self.written();
                match self.serialize_elements(items) {
                    Err(e) => {
                        proof {
                            lemma_extends(old(self).written(), h->Ok_0);
                            lemma_extends_twice(old(self).written(), opened, self.written());
                        }
                        return Err(e);
                    },
                    Ok(()) => {},
                }
                assert(self.written() =~= old(self).written() + (h->Ok_0 + b->Ok_0));
                self.end_seq()
            },
            Value::Compound(fields) => {
                let ghost h = head(self.pending(), Tag::Compound);
                let ghost b = fields_encoding(field_trees(fields@), 0);
                match self.serialize_struct("", fields.len()) {
                    Err(e) => {
                        return Err(e);
                    },
                    Ok(()) => {},
                }
                let ghost opened = self.written();
                match self.serialize_fields(fields) {
                    Err(e) => {
                        proof {
                            lemma_extends(old(self).written(), h->Ok_0);
                            lemma_extends_twice(old(self).written(), opened, self.written());
                        }
                        return Err(e);
                    },
                    Ok(()) => {},
                }
                assert(self.written().push(0u8) =~= old(self).written() + (h->Ok_0 + (b->Ok_0
                    + seq![0u8])));
                self.end()
            },
        }
    }

    /// Writes the elements of an open sequence one after another.
    fn serialize_elements(&mut self, items: &Vec<Value>) -> (r: Result<(), Error>)
        requires
            items.len() <= MAX_SEQ_LEN,
            old(self).pending() == Obligation::InSeq(Some(items.len() as i32)),
        ensures
            Self::wrote_some(
                *old(self),
                *final(self),
                r,
                elements_encoding(item_trees(items@), 0),
            ),
        decreases items, 0nat,
    {
        let ghost trees = item_trees(items@);
        let ghost base = self.written();
        let ghost mut done: Seq<u8> = Seq::empty();
        let mut i: usize = 0;
        proof {
            lemma_item_trees(items@);
            assert(base + done =~= base);
        }
        while i < items.len()
            invariant
                i <= items.len(),
                items.len() <= MAX_SEQ_LEN,
                trees == item_trees(items@),
                trees.len() == items.len(),
                base == old(self).written(),
                self.written() == base + done,
                self.pending() == if i == 0 {
                    Obligation::InSeq(Some(items.len() as i32))
                } else {
                    Obligation::Unset
                },
                elements_encoding(trees, 0) == chain(
                    Ok(done),
                    elements_encoding(trees, i as nat),
                ),
            decreases items.len() - i,
        {
            let ghost first = encoding(trees[i as int], element_obligation(i as nat, trees.len()));
            let ghost rest = elements_encoding(trees, (i + 1) as nat);
            proof {
                lemma_item_trees(items@);
                lemma_chain_twice(done, first, rest);
                lemma_extends(base, done);
            }
            let _ = self.serialize_element();
            let ghost before = self.written();
            match self.serialize_value(&items[i]) {
                Err(e) => {
                    proof {
                        lemma_extends_twice(base, before, self.written());
                    }
                    return Err(e);
                },
                Ok(()) => {},
            }
            proof {
                assert(self.written() =~= base + (done + first->Ok_0));
                done = done + first->Ok_0;
            }
            i += 1;
        }
        assert(done + Seq::<u8>::empty() =~= done);
        Ok(())
    }

    /// Writes the fields of an open compound one after another, each under
    /// its name.
    fn serialize_fields(&mut self, fields: &Vec<Field>) -> (r: Result<(), Error>)
        ensures
            Self::wrote_some(
                *old(self),
                *final(self),
                r,
                fields_encoding(field_trees(fields@), 0),
            ),
        decreases fields, 0nat,
    {
        let ghost trees = field_trees(fields@);
        let ghost base = self.written();
        let ghost mut done: Seq<u8> = Seq::empty();
        let mut i: usize = 0;
        proof {
            lemma_field_trees(fields@);
            assert(base + done =~= base);
        }
        while i < fields.len()
            invariant
                i <= fields.len(),
                trees == field_trees(fields@),
                trees.len() == fields.len(),
                base == old(self).written(),
                self.written() == base + done,
                fields_encoding(trees, 0) == chain(Ok(done), fields_encoding(trees, i as nat)),
            decreases fields.len() - i,
        {
            let ghost name = wire_text(trees[i as int].0);
            let ghost first = encoding(trees[i as int].1, Obligation::Named(name->Some_0));
            let ghost rest = fields_encoding(trees, (i + 1) as nat);
            proof {
                lemma_field_trees(fields@);
                lemma_chain_twice(done, first, rest);
                lemma_extends(base, done);
            }
            let field = &fields[i];
            match self.serialize_field(field.name.as_str()) {
                Err(e) => {
                    return Err(e);
                },
                Ok(()) => {},
            }
            let ghost before = self.written();
            match self.serialize_value(&field.value) {
                Err(e) => {
                    proof {
                        lemma_extends_twice(base, before, self.written());
                    }
                    return Err(e);
                },
                Ok(()) => {},
            }
            proof {
                assert(self.written() =~= base + (done + first->Ok_0));
                done = done + first->Ok_0;
            }
            i += 1;
        }
        assert(done + Seq::<u8>::empty() =~= done);
        Ok(())
    }
}

/// What is written stays written: `before` opens `before + more`.
proof fn lemma_extends(before: Seq<u8>, more: Seq<u8>)
    ensures
        before.is_prefix_of(before + more),
{
    assert((before + more).subrange(0, before.len() as int) =~= before);
}

/// A prefix of a prefix is a prefix.
proof fn lemma_extends_twice(a: Seq<u8>, b: Seq<u8>, c: Seq<u8>)
    requires
        a.is_prefix_of(b),
        b.is_prefix_of(c),
    ensures
        a.is_prefix_of(c),
{
    assert(c.subrange(0, a.len() as int) =~= b.subrange(0, a.len() as int));
}

/// Bytes already written, then one more piece, then the rest: the piece
/// joins what was written.
proof fn lemma_chain_twice(
    done: Seq<u8>,
    first: Result<Seq<u8>, Fault>,
    rest: Result<Seq<u8>, Fault>,
)
    ensures
        chain(Ok(done), chain(first, rest)) == match first {
            Ok(bytes) => chain(Ok(done + bytes), rest),
            Err(fault) => Err(fault),
        },
{
    if first is Ok && rest is Ok {
        assert((done + first->Ok_0) + rest->Ok_0 =~= done + (first->Ok_0 + rest->Ok_0));
    }
}

/// Encodes `value` as the root of a document. The only faults are those of
/// the value itself: a name or a sequence that is too long, a text that
/// cannot be transcoded.
pub fn to_vec(value: &Value) -> (r: Result<Vec<u8>, Error>)
    ensures
        match document(value@) {
            Ok(bytes) => r matches Ok(output) && output@ == bytes,
            Err(fault) => r matches Err(e) && e@ == fault,
        },
        r matches Err(e) ==> fault_of_writing(e@),
{
    proof {
        lemma_faults_of_encoding(value@, Obligation::Root);
    }
    let mut serializer = match Serializer::new(Vec::new()) {
        Ok(serializer) => serializer,
        Err(e) => {
            return Err(e);
        },
    };
    match serializer.serialize_value(value) {
        Ok(()) => Ok(serializer.into_inner()),
        Err(e) => Err(e),
    }
}

} // verus!

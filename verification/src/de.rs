//! The decoder: reads a document back into values.

use vstd::prelude::*;
use vstd::slice::{slice_subrange, slice_to_vec};
use vstd::string::StrSliceExecFns;
use crate::error::{Error, Fault};
use crate::laws::{fault_of_reading, lemma_faults_of_parsing};
use crate::tag::Tag;
use crate::transcode::{decode_text, text_of_wire};
use crate::value::{field_trees, item_trees, Field, Tree, Value};
use crate::wire::{
    from_le16, from_le32, from_le64, lemma_text_len, magic, parse_bool, parse_bytes, parse_char,
    parse_document, parse_elements, parse_field_header, parse_fields, parse_header, parse_i16,
    parse_i32, parse_i64, parse_i8, parse_payload, parse_raw_field_header, parse_raw_text,
    parse_sequence_header, parse_text, parse_u16, parse_u32, parse_u64, parse_u8, text_len,
    with_front, Parsed, MAX_SEQ_LEN,
};

verus! {

/// Reads the header at the start of `input`: checks the magic number and
/// version and returns the flags byte.
pub fn read_header(input: &[u8]) -> (r: Result<u8, Error>)
    ensures
        match parse_header(input@) {
            Ok((flags, _)) => r == Ok::<u8, Error>(flags),
            Err(fault) => r matches Err(e) && e@ == fault,
        },
{
    if input.len() >= 6 {
        if input[0] != 0xad || input[1] != 0x4e || input[2] != 0x42 || input[3] != 0x54
            || input[4] != 0x00 || input[5] != 0x04 {
            assert(input@.take(6)[0] == input@[0]);
            assert(input@.take(6)[1] == input@[1]);
            assert(input@.take(6)[2] == input@[2]);
            assert(input@.take(6)[3] == input@[3]);
            assert(input@.take(6)[4] == input@[4]);
            assert(input@.take(6)[5] == input@[5]);
            return Err(Error::InvalidHeader);
        }
        assert(input@.take(6) =~= magic());
    }
    if input.len() < 7 {
        return Err(Error::Eof);
    }
    Ok(input[6])
}

/// Reads a document value by value. It is made from the whole input, checks
/// the header at once, and then stands before the payload of the root.
#[derive(Debug)]
pub struct Deserializer<'a> {
    input: &'a [u8],
    pos: usize,
    endianness: bool,
}

impl<'a> Deserializer<'a> {
    #[verifier::type_invariant]
    spec fn in_bounds(self) -> bool {
        self.pos <= self.input@.len()
    }

    /// The input that has not been read yet.
    pub closed spec fn remaining(&self) -> Seq<u8> {
        self.input@.skip(self.pos as int)
    }

    /// Whether the high bit of the header's flags byte was set.
    pub closed spec fn flagged(&self) -> bool {
        self.endianness
    }

    /// Reads and checks the header of `input`, and stands behind it.
    pub fn new(input: &'a [u8]) -> (r: Result<Deserializer<'a>, Error>)
        ensures
            match parse_header(input@) {
                Ok((flags, rest)) => r matches Ok(d) && d.remaining() == rest && d.flagged()
                    == (flags >= 0x80),
                Err(fault) => r matches Err(e) && e@ == fault,
            },
    {
        match read_header(input) {
            Err(e) => Err(e),
            Ok(flags) => Ok(Deserializer { input, pos: 7, endianness: flags >= 0x80 }),
        }
    }

    /// Whether the header's flags byte had its high bit set. Nothing in the
    /// decoder depends on it.
    pub fn endianness(&self) -> (flag: bool)
        ensures
            flag == self.flagged(),
    {
        self.endianness
    }

    /// The number of bytes not read yet.
    pub fn available(&self) -> (n: usize)
        ensures
            n == self.remaining().len(),
    {
        proof {
            use_type_invariant(self);
        }
        self.input.len() - self.pos
    }

    /// The byte `offset` places ahead, without reading it.
    fn byte_at(&self, offset: usize) -> (byte: u8)
        requires
            offset < self.remaining().len(),
        ensures
            byte == self.remaining()[offset as int],
    {
        proof {
            use_type_invariant(self);
            assert(self.remaining().len() == self.input@.len() - self.pos);
        }
        let len = self.input.len();
        self.input[self.pos + offset]
    }

    /// Steps over the next `n` bytes.
    fn advance(&mut self, n: usize)
        requires
            n <= old(self).remaining().len(),
        ensures
            final(self).remaining() == old(self).remaining().skip(n as int),
            final(self).remaining().len() == old(self).remaining().len() - n,
            final(self).flagged() == old(self).flagged(),
    {
        proof {
            use_type_invariant(&*self);
            assert(self.remaining().len() == self.input@.len() - self.pos);
        }
        let len = self.input.len();
        self.pos = self.pos + n;
        assert(self.input@.skip(self.pos as int) =~= old(self).input@.skip(
            old(self).pos as int,
        ).skip(n as int));
    }

    /// The 16-bit number `offset` places ahead, without reading it.
    fn le16_at(&self, offset: usize) -> (x: u16)
        requires
            offset + 2 <= self.remaining().len(),
        ensures
            x == from_le16(self.remaining().skip(offset as int)),
    {
        let _ = self.available();
        let b0 = self.byte_at(offset);
        let b1 = self.byte_at(offset + 1);
        b0 as u16 + 0x100 * (b1 as u16)
    }

    /// The 32-bit number `offset` places ahead, without reading it.
    fn le32_at(&self, offset: usize) -> (x: u32)
        requires
            offset + 4 <= self.remaining().len(),
        ensures
            x == from_le32(self.remaining().skip(offset as int)),
    {
        let _ = self.available();
        let b0 = self.byte_at(offset);
        let b1 = self.byte_at(offset + 1);
        let b2 = self.byte_at(offset + 2);
        let b3 = self.byte_at(offset + 3);
        b0 as u32 + 0x100 * (b1 as u32) + 0x1_0000 * (b2 as u32) + 0x100_0000 * (b3 as u32)
    }

    /// The 64-bit number `offset` places ahead, without reading it.
    fn le64_at(&self, offset: usize) -> (x: u64)
        requires
            offset + 8 <= self.remaining().len(),
        ensures
            x == from_le64(self.remaining().skip(offset as int)),
    {
        let _ = self.available();
        let low = self.le32_at(offset);
        let high = self.le32_at(offset + 4);
        assert(self.remaining().skip(offset as int).skip(4) =~= self.remaining().skip(
            offset + 4,
        ));
        low as u64 + 0x1_0000_0000 * (high as u64)
    }

    /// `r` reports `expected` for a read that is all or nothing: on success
    /// the value was read and the decoder stands behind it, on a fault the
    /// decoder has not moved.
    pub open spec fn read<T: View>(
        before: Self,
        after: Self,
        r: Result<T, Error>,
        expected: Parsed<T::V>,
    ) -> bool {
        &&& after.remaining().len() <= before.remaining().len()
        &&& match expected {
            Ok((value, rest)) => r matches Ok(v) && v@ == value && after.remaining() == rest
                && after.flagged() == before.flagged(),
            Err(fault) => r matches Err(e) && e@ == fault && after == before,
        }
    }

    /// Reads an 8-bit unsigned integer.
    pub fn deserialize_u8(&mut self) -> (r: Result<u8, Error>)
        ensures
            Self::read(*old(self), *final(self), r, parse_u8(old(self).remaining())),
    {
        if self.available() < 1 {
            return Err(Error::Eof);
        }
        let v = self.byte_at(0);
        self.advance(1);
        Ok(v)
    }

    /// Reads a 16-bit unsigned integer.
    pub fn deserialize_u16(&mut self) -> (r: Result<u16, Error>)
        ensures
            Self::read(*old(self), *final(self), r, parse_u16(old(self).remaining())),
    {
        if self.available() < 2 {
            return Err(Error::Eof);
        }
        let v = self.le16_at(0);
        assert(self.remaining().skip(0) =~= self.remaining());
        self.advance(2);
        Ok(v)
    }

    /// Reads a 32-bit unsigned integer.
    pub fn deserialize_u32(&mut self) -> (r: Result<u32, Error>)
        ensures
            Self::read(*old(self), *final(self), r, parse_u32(old(self).remaining())),
    {
        if self.available() < 4 {
            return Err(Error::Eof);
        }
        let v = self.le32_at(0);
        assert(self.remaining().skip(0) =~= self.remaining());
        self.advance(4);
        Ok(v)
    }

    /// Reads a 64-bit unsigned integer.
    pub fn deserialize_u64(&mut self) -> (r: Result<u64, Error>)
        ensures
            Self::read(*old(self), *final(self), r, parse_u64(old(self).remaining())),
    {
        if self.available() < 8 {
            return Err(Error::Eof);
        }
        let v = self.le64_at(0);
        assert(self.remaining().skip(0) =~= self.remaining());
        self.advance(8);
        Ok(v)
    }

    /// Reads a boolean: the byte zero is false, any other byte true.
    pub fn deserialize_bool(&mut self) -> (r: Result<bool, Error>)
        ensures
            Self::read(*old(self), *final(self), r, parse_bool(old(self).remaining())),
    {
        match self.deserialize_u8() {
            Ok(byte) => Ok(byte != 0),
            Err(e) => Err(e),
        }
    }

    /// Reads a signed byte from the unsigned byte with the same bits.
    pub fn deserialize_i8(&mut self) -> (r: Result<i8, Error>)
        ensures
            Self::read(*old(self), *final(self), r, parse_i8(old(self).remaining())),
    {
        match self.deserialize_u8() {
            Ok(bits) => Ok(
                if bits < 0x80 {
                    bits as i8
                } else {
                    (bits as i16 - 0x100) as i8
                },
            ),
            Err(e) => Err(e),
        }
    }

    /// Reads a signed 16-bit integer from the unsigned one with the same bits.
    pub fn deserialize_i16(&mut self) -> (r: Result<i16, Error>)
        ensures
            Self::read(*old(self), *final(self), r, parse_i16(old(self).remaining())),
    {
        match self.deserialize_u16() {
            Ok(bits) => Ok(
                if bits < 0x8000 {
                    bits as i16
                } else {
                    (bits as i32 - 0x1_0000) as i16
                },
            ),
            Err(e) => Err(e),
        }
    }

    /// Reads a signed 32-bit integer from the unsigned one with the same bits.
    pub fn deserialize_i32(&mut self) -> (r: Result<i32, Error>)
        ensures
            Self::read(*old(self), *final(self), r, parse_i32(old(self).remaining())),
    {
        match self.deserialize_u32() {
            Ok(bits) => Ok(
                if bits < 0x8000_0000 {
                    bits as i32
                } else {
                    (bits as i64 - 0x1_0000_0000) as i32
                },
            ),
            Err(e) => Err(e),
        }
    }

    /// Reads a signed 64-bit integer from the unsigned one with the same bits.
    pub fn deserialize_i64(&mut self) -> (r: Result<i64, Error>)
        ensures
            Self::read(*old(self), *final(self), r, parse_i64(old(self).remaining())),
    {
        match self.deserialize_u64() {
            Ok(bits) => Ok(
                if bits < 0x8000_0000_0000_0000 {
                    bits as i64
                } else {
                    (bits as i128 - 0x1_0000_0000_0000_0000) as i64
                },
            ),
            Err(e) => Err(e),
        }
    }

    /// Reads a blob: all that is left of the input.
    pub fn deserialize_bytes(&mut self) -> (r: Result<Vec<u8>, Error>)
        ensures
            Self::read(*old(self), *final(self), r, parse_bytes(old(self).remaining())),
    {
        proof {
            use_type_invariant(&*self);
        }
        let n = self.available();
        let bytes = slice_to_vec(slice_subrange(self.input, self.pos, self.input.len()));
        self.advance(n);
        assert(self.remaining() =~= Seq::<u8>::empty());
        Ok(bytes)
    }

    /// The number of bytes that the text standing next takes.
    fn text_ahead(&self) -> (n: usize)
        ensures
            n == text_len(self.remaining()),
            n <= self.remaining().len(),
            self.remaining().take(n as int) == self.input@.subrange(
                self.pos as int,
                self.pos + n,
            ),
            self.pos + n <= self.input@.len(),
    {
        proof {
            use_type_invariant(self);
        }
        let len = self.input.len();
        let mut end = self.pos;
        while end < len && self.input[end] != 0
            invariant
                self.pos <= end <= len,
                len == self.input@.len(),
                forall|i: int| self.pos <= i < end ==> self.input@[i] != 0,
            decreases len - end,
        {
            end += 1;
        }
        let n = end - self.pos;
        proof {
            lemma_text_len(self.remaining(), n as nat);
            assert(self.remaining().take(n as int) =~= self.input@.subrange(
                self.pos as int,
                end as int,
            ));
        }
        n
    }

    /// Reads the wire bytes of a text: the bytes up to the first zero byte
    /// or the end of the input.
    pub fn deserialize_raw_str(&mut self) -> (r: Result<Vec<u8>, Error>)
        ensures
            Self::read(*old(self), *final(self), r, parse_raw_text(old(self).remaining())),
    {
        let total = self.input.len();
        let n = self.text_ahead();
        let bytes = slice_to_vec(slice_subrange(self.input, self.pos, self.pos + n));
        self.advance(n);
        Ok(bytes)
    }

    /// Reads a text: the bytes up to the first zero byte or the end of the
    /// input, transcoded.
    pub fn deserialize_str(&mut self) -> (r: Result<String, Error>)
        ensures
            Self::read(*old(self), *final(self), r, parse_text(old(self).remaining())),
    {
        let total = self.input.len();
        let n = self.text_ahead();
        match decode_text(slice_subrange(self.input, self.pos, self.pos + n)) {
            Err(message) => Err(Error::Mutf8(message)),
            Ok(text) => {
                self.advance(n);
                Ok(text)
            },
        }
    }

    /// Reads a text, as `deserialize_str` does.
    pub fn deserialize_string(&mut self) -> (r: Result<String, Error>)
        ensures
            Self::read(*old(self), *final(self), r, parse_text(old(self).remaining())),
    {
        self.deserialize_str()
    }

    /// Reads a blob, as `deserialize_bytes` does.
    pub fn deserialize_byte_buf(&mut self) -> (r: Result<Vec<u8>, Error>)
        ensures
            Self::read(*old(self), *final(self), r, parse_bytes(old(self).remaining())),
    {
        self.deserialize_bytes()
    }

    /// Reads the bits of a 32-bit float.
    pub fn deserialize_f32(&mut self) -> (r: Result<u32, Error>)
        ensures
            Self::read(*old(self), *final(self), r, parse_u32(old(self).remaining())),
    {
        self.deserialize_u32()
    }

    /// Reads the bits of a 64-bit float.
    pub fn deserialize_f64(&mut self) -> (r: Result<u64, Error>)
        ensures
            Self::read(*old(self), *final(self), r, parse_u64(old(self).remaining())),
    {
        self.deserialize_u64()
    }

    /// Reads a character: a text that holds it alone.
    pub fn deserialize_char(&mut self) -> (r: Result<char, Error>)
        ensures
            Self::read(*old(self), *final(self), r, parse_char(old(self).remaining())),
    {
        let total = self.input.len();
        let n = self.text_ahead();
        match decode_text(slice_subrange(self.input, self.pos, self.pos + n)) {
            Err(message) => Err(Error::Mutf8(message)),
            Ok(text) => {
                if text.as_str().unicode_len() == 1 {
                    self.advance(n);
                    Ok(text.as_str().get_char(0))
                } else {
                    Err(Error::Message("expected a text of one character".to_owned()))
                }
            },
        }
    }

    /// `r` refuses a kind of value for which the format has no framing: the
    /// decoder has not moved.
    pub open spec fn refused<T>(before: Self, after: Self, r: Result<T, Error>) -> bool {
        r matches Err(e) && e@ == Fault::Unsupported && after == before
    }

    /// Refuses a signed 128-bit integer: the format has no tag for it.
    pub fn deserialize_i128(&mut self) -> (r: Result<i128, Error>)
        ensures
            Self::refused(*old(self), *final(self), r),
    {
        Err(Error::Unsupported)
    }

    /// Refuses an unsigned 128-bit integer: the format has no tag for it.
    pub fn deserialize_u128(&mut self) -> (r: Result<u128, Error>)
        ensures
            Self::refused(*old(self), *final(self), r),
    {
        Err(Error::Unsupported)
    }

    /// Refuses an optional value.
    pub fn deserialize_option(&mut self) -> (r: Result<Option<Value>, Error>)
        ensures
            Self::refused(*old(self), *final(self), r),
    {
        Err(Error::Unsupported)
    }

    /// Refuses the unit value.
    pub fn deserialize_unit(&mut self) -> (r: Result<(), Error>)
        ensures
            Self::refused(*old(self), *final(self), r),
    {
        Err(Error::Unsupported)
    }

    /// Refuses a unit struct.
    pub fn deserialize_unit_struct(&mut self, name: &str) -> (r: Result<(), Error>)
        ensures
            Self::refused(*old(self), *final(self), r),
    {
        self.deserialize_unit()
    }

    /// Refuses a tuple.
    pub fn deserialize_tuple(&mut self, len: usize) -> (r: Result<Vec<Value>, Error>)
        ensures
            Self::refused(*old(self), *final(self), r),
    {
        Err(Error::Unsupported)
    }

    /// Refuses a tuple struct.
    pub fn deserialize_tuple_struct(&mut self, name: &str, len: usize) -> (r: Result<
        Vec<Value>,
        Error,
    >)
        ensures
            Self::refused(*old(self), *final(self), r),
    {
        Err(Error::Unsupported)
    }

    /// Refuses a map: the format frames only records with known field names.
    pub fn deserialize_map(&mut self) -> (r: Result<Vec<Field>, Error>)
        ensures
            Self::refused(*old(self), *final(self), r),
    {
        Err(Error::Unsupported)
    }

    /// Refuses an enum.
    pub fn deserialize_enum(&mut self, name: &str) -> (r: Result<Value, Error>)
        ensures
            Self::refused(*old(self), *final(self), r),
    {
        Err(Error::Unsupported)
    }

    /// Reads the element tag and the count that open a sequence.
    pub fn deserialize_seq(&mut self) -> (r: Result<(Tag, usize), Error>)
        ensures
            match parse_sequence_header(old(self).remaining()) {
                Ok(((tag, count), rest)) => {
                    &&& r == Ok::<(Tag, usize), Error>((tag, count as usize))
                    &&& count <= MAX_SEQ_LEN
                    &&& final(self).remaining() == rest
                    &&& final(self).flagged() == old(self).flagged()
                },
                Err(fault) => r matches Err(e) && e@ == fault && *final(self) == *old(self),
            },
            final(self).remaining().len() <= old(self).remaining().len(),
    {
        let n = self.available();
        if n < 1 {
            return Err(Error::Eof);
        }
        let code = self.byte_at(0);
        let element = match Tag::from_code(code) {
            None => {
                return Err(Error::UnrecognizedTag(code));
            },
            Some(Tag::End) => {
                return Err(Error::UnrecognizedTag(code));
            },
            Some(element) => element,
        };
        if n < 5 {
            return Err(Error::Eof);
        }
        let count = self.le32_at(1);
        if count > 0x7fff_ffff {
            return Err(Error::SeqLen(count as usize));
        }
        self.advance(5);
        Ok((element, count as usize))
    }

    /// What opens the field standing next: its tag and the length of its
    /// name, or `None` where the terminator stands.
    fn identifier_ahead(&self) -> (r: Result<Option<(Tag, usize)>, Error>)
        ensures
            match parse_raw_field_header(self.remaining()) {
                Ok((None, _)) => r == Ok::<Option<(Tag, usize)>, Error>(None)
                    && self.remaining().len() >= 1,
                Ok((Some((tag, bytes)), _)) => {
                    &&& r == Ok::<Option<(Tag, usize)>, Error>(Some((tag, bytes.len() as usize)))
                    &&& 3 + bytes.len() <= self.remaining().len()
                    &&& self.pos + 3 + bytes.len() <= self.input@.len()
                    &&& bytes == self.input@.subrange(self.pos + 3, self.pos + 3 + bytes.len())
                },
                Err(fault) => r matches Err(e) && e@ == fault,
            },
    {
        proof {
            use_type_invariant(self);
            assert(self.remaining().len() == self.input@.len() - self.pos);
        }
        let total = self.input.len();
        let n = self.available();
        if n < 1 {
            return Err(Error::Eof);
        }
        let code = self.byte_at(0);
        let tag = match Tag::from_code(code) {
            None => {
                return Err(Error::UnrecognizedTag(code));
            },
            Some(Tag::End) => {
                return Ok(None);
            },
            Some(tag) => tag,
        };
        if n < 3 {
            return Err(Error::Eof);
        }
        let len = self.le16_at(1) as usize;
        if n - 3 < len {
            return Err(Error::Eof);
        }
        assert(self.remaining().subrange(3, 3 + len) =~= self.input@.subrange(
            self.pos + 3,
            self.pos + 3 + len,
        ));
        Ok(Some((tag, len)))
    }

    /// Reads what opens a field: its tag and the wire bytes of its name.
    /// Where the terminator stands instead, reads it and returns `None`.
    pub fn deserialize_raw_identifier(&mut self) -> (r: Result<Option<(Tag, Vec<u8>)>, Error>)
        ensures
            match parse_raw_field_header(old(self).remaining()) {
                Ok((found, rest)) => {
                    &&& final(self).remaining() == rest
                    &&& final(self).flagged() == old(self).flagged()
                    &&& match found {
                        None => r == Ok::<Option<(Tag, Vec<u8>)>, Error>(None),
                        Some((tag, name)) => r matches Ok(Some((t, bytes))) && t == tag && bytes@
                            == name,
                    }
                },
                Err(fault) => r matches Err(e) && e@ == fault && *final(self) == *old(self),
            },
            final(self).remaining().len() <= old(self).remaining().len(),
    {
        let total = self.input.len();
        match self.identifier_ahead() {
            Err(e) => Err(e),
            Ok(None) => {
                self.advance(1);
                Ok(None)
            },
            Ok(Some((tag, len))) => {
                let start = self.pos + 3;
                let name = slice_to_vec(slice_subrange(self.input, start, start + len));
                self.advance(3 + len);
                Ok(Some((tag, name)))
            },
        }
    }

    /// Reads what opens a field: its tag and its name. Where the terminator
    /// stands instead, reads it and returns `None`.
    pub fn deserialize_identifier(&mut self) -> (r: Result<Option<(Tag, String)>, Error>)
        ensures
            match parse_field_header(old(self).remaining()) {
                Ok((found, rest)) => {
                    &&& final(self).remaining() == rest
                    &&& final(self).flagged() == old(self).flagged()
                    &&& match found {
                        None => r == Ok::<Option<(Tag, String)>, Error>(None),
                        Some((tag, name)) => r matches Ok(Some((t, text))) && t == tag && text@
                            == name,
                    }
                },
                Err(fault) => r matches Err(e) && e@ == fault && *final(self) == *old(self),
            },
            final(self).remaining().len() <= old(self).remaining().len(),
    {
        let total = self.input.len();
        match self.identifier_ahead() {
            Err(e) => Err(e),
            Ok(None) => {
                self.advance(1);
                Ok(None)
            },
            Ok(Some((tag, len))) => {
                let start = self.pos + 3;
                match decode_text(slice_subrange(self.input, start, start + len)) {
                    Err(message) => Err(Error::Mutf8(message)),
                    Ok(name) => {
                        self.advance(3 + len);
                        Ok(Some((tag, name)))
                    },
                }
            },
        }
    }

    /// Reads the payload of a value of tag `tag`, whatever it holds.
    pub fn deserialize_any(&mut self, tag: Tag) -> (r: Result<Value, Error>)
        ensures
            match parse_payload(tag, old(self).remaining()) {
                Ok((tree, rest)) => {
                    &&& r matches Ok(value) && value@ == tree
                    &&& final(self).remaining() == rest
                    &&& final(self).flagged() == old(self).flagged()
                },
                Err(fault) => r matches Err(e) && e@ == fault,
            },
            final(self).remaining().len() <= old(self).remaining().len(),
        decreases old(self).remaining().len(), 1nat, 0nat,
    {
        match tag {
            Tag::End => Err(Error::UnrecognizedTag(0)),
            Tag::U8 => match self.deserialize_u8() {
                Ok(v) => Ok(Value::U8(v)),
                Err(e) => Err(e),
            },
            Tag::U16 => match self.deserialize_u16() {
                Ok(v) => Ok(Value::U16(v)),
                Err(e) => Err(e),
            },
            Tag::U32 => match self.deserialize_u32() {
                Ok(v) => Ok(Value::U32(v)),
                Err(e) => Err(e),
            },
            Tag::U64 => match self.deserialize_u64() {
                Ok(v) => Ok(Value::U64(v)),
                Err(e) => Err(e),
            },
            Tag::F32 => match self.deserialize_u32() {
                Ok(bits) => Ok(Value::F32(bits)),
                Err(e) => Err(e),
            },
            Tag::F64 => match self.deserialize_u64() {
                Ok(bits) => Ok(Value::F64(bits)),
                Err(e) => Err(e),
            },
            Tag::Bytes => match self.deserialize_bytes() {
                Ok(bytes) => Ok(Value::Bytes(bytes)),
                Err(e) => Err(e),
            },
            Tag::Str => match self.deserialize_str() {
                Ok(text) => Ok(Value::Str(text)),
                Err(e) => Err(e),
            },
            Tag::Sequence => {
                let (element, count) = match self.deserialize_seq() {
                    Ok(header) => header,
                    Err(e) => {
                        return Err(e);
                    },
                };
                match self.deserialize_elements(element, count) {
                    Ok(items) => Ok(Value::Sequence(items)),
                    Err(e) => Err(e),
                }
            },
            Tag::Compound => match self.deserialize_struct() {
                Ok(fields) => Ok(Value::Compound(fields)),
                Err(e) => Err(e),
            },
        }
    }

    /// Reads `count` values of tag `tag`, one after another.
    pub fn deserialize_elements(&mut self, tag: Tag, count: usize) -> (r: Result<Vec<Value>, Error>)
        ensures
            match parse_elements(tag, count as nat, old(self).remaining()) {
                Ok((trees, rest)) => {
                    &&& r matches Ok(items) && item_trees(items@) == trees
                    &&& final(self).remaining() == rest
                    &&& final(self).flagged() == old(self).flagged()
                },
                Err(fault) => r matches Err(e) && e@ == fault,
            },
            final(self).remaining().len() <= old(self).remaining().len(),
        decreases old(self).remaining().len(), 2nat, count,
    {
        let ghost start = self.remaining();
        let mut items: Vec<Value> = Vec::new();
        let mut i: usize = 0;
        proof {
            lemma_with_front_twice::<Tree>(
                Seq::empty(),
                Seq::empty(),
                parse_elements(tag, count as nat, start),
            );
        }
        while i < count
            invariant
                i <= count,
                start == old(self).remaining(),
                self.remaining().len() <= start.len(),
                self.flagged() == old(self).flagged(),
                parse_elements(tag, count as nat, start) == with_front(
                    item_trees(items@),
                    parse_elements(tag, (count - i) as nat, self.remaining()),
                ),
            decreases count - i,
        {
            let item = match self.deserialize_any(tag) {
                Ok(item) => item,
                Err(e) => {
                    return Err(e);
                },
            };
            proof {
                lemma_with_front_twice(
                    item_trees(items@),
                    seq![item@],
                    parse_elements(tag, (count - i - 1) as nat, self.remaining()),
                );
                assert(items@.push(item).drop_last() =~= items@);
                assert(item_trees(items@) + seq![item@] =~= item_trees(items@).push(item@));
            }
            items.push(item);
            i += 1;
        }
        proof {
            assert(item_trees(items@) + Seq::<Tree>::empty() =~= item_trees(items@));
        }
        Ok(items)
    }

    /// Reads the fields of a compound, up to and with its terminator.
    pub fn deserialize_struct(&mut self) -> (r: Result<Vec<Field>, Error>)
        ensures
            match parse_fields(old(self).remaining()) {
                Ok((trees, rest)) => {
                    &&& r matches Ok(fields) && field_trees(fields@) == trees
                    &&& final(self).remaining() == rest
                    &&& final(self).flagged() == old(self).flagged()
                },
                Err(fault) => r matches Err(e) && e@ == fault,
            },
            final(self).remaining().len() <= old(self).remaining().len(),
        decreases old(self).remaining().len(), 0nat, 0nat,
    {
        let ghost start = self.remaining();
        let mut fields: Vec<Field> = Vec::new();
        proof {
            lemma_with_front_twice::<(Seq<char>, Tree)>(
                Seq::empty(),
                Seq::empty(),
                parse_fields(start),
            );
        }
        loop
            invariant
                start == old(self).remaining(),
                self.remaining().len() <= start.len(),
                self.flagged() == old(self).flagged(),
                parse_fields(start) == with_front(
                    field_trees(fields@),
                    parse_fields(self.remaining()),
                ),
            decreases self.remaining().len(),
        {
            let header = match self.deserialize_identifier() {
                Ok(header) => header,
                Err(e) => {
                    return Err(e);
                },
            };
            match header {
                None => {
                    proof {
                        assert(field_trees(fields@) + Seq::<(Seq<char>, Tree)>::empty()
                            =~= field_trees(fields@));
                    }
                    return Ok(fields);
                },
                Some((tag, name)) => {
                    let value = match self.deserialize_any(tag) {
                        Ok(value) => value,
                        Err(e) => {
                            return Err(e);
                        },
                    };
                    let field = Field { name, value };
                    proof {
                        lemma_with_front_twice(
                            field_trees(fields@),
                            seq![(field.name@, field.value@)],
                            parse_fields(self.remaining()),
                        );
                        assert(fields@.push(field).drop_last() =~= fields@);
                        assert(field_trees(fields@) + seq![(field.name@, field.value@)]
                            =~= field_trees(fields@).push((field.name@, field.value@)));
                    }
                    fields.push(field);
                },
            }
        }
    }
}

/// Reads the document `input` with a compound as its root.
pub fn from_slice(input: &[u8]) -> (r: Result<Value, Error>)
    ensures
        match parse_document(Tag::Compound, input@) {
            Ok(tree) => r matches Ok(value) && value@ == tree,
            Err(fault) => r matches Err(e) && e@ == fault,
        },
        r matches Err(e) ==> fault_of_reading(e@),
{
    from_slice_as(input, Tag::Compound)
}

/// Reads the document `input` with a value of tag `tag` as its root.
pub fn from_slice_as(input: &[u8], tag: Tag) -> (r: Result<Value, Error>)
    ensures
        match parse_document(tag, input@) {
            Ok(tree) => r matches Ok(value) && value@ == tree,
            Err(fault) => r matches Err(e) && e@ == fault,
        },
        r matches Err(e) ==> fault_of_reading(e@),
{
    proof {
        lemma_faults_of_parsing(tag, input@);
    }
    let mut deserializer = match Deserializer::new(input) {
        Ok(deserializer) => deserializer,
        Err(e) => {
            return Err(e);
        },
    };
    deserializer.deserialize_any(tag)
}

/// Putting `a` and then `b` in front is putting `a + b` in front.
proof fn lemma_with_front_twice<T>(a: Seq<T>, b: Seq<T>, parsed: Parsed<Seq<T>>)
    ensures
        with_front(a, with_front(b, parsed)) == with_front(a + b, parsed),
        with_front(Seq::empty(), parsed) == parsed,
{
    if let Ok((more, rest)) = parsed {
        assert(a + (b + more) =~= (a + b) + more);
        assert(Seq::<T>::empty() + more =~= more);
    }
}

} // verus!

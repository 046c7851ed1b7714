//! The one-byte codes that name the kind of a value on the wire.

use vstd::prelude::*;

verus! {

/// The kind of a value, as the wire names it.
#[derive(Clone, Copy, Debug, PartialEq, Eq, Structural)]
pub enum Tag {
    /// Closes a compound; never the tag of a value.
    End,
    U8,
    U16,
    U32,
    U64,
    F32,
    F64,
    Bytes,
    Str,
    Sequence,
    Compound,
}

impl Tag {
    /// The byte that stands for this tag.
    pub open spec fn spec_code(self) -> u8 {
        match self {
            Tag::End => 0x00,
            Tag::U8 => 0x01,
            Tag::U16 => 0x02,
            Tag::U32 => 0x03,
            Tag::U64 => 0x04,
            Tag::F32 => 0x05,
            Tag::F64 => 0x06,
            Tag::Bytes => 0x07,
            Tag::Str => 0x08,
            Tag::Sequence => 0x09,
            Tag::Compound => 0x0a,
        }
    }

    /// The tag that a byte stands for, if any.
    pub open spec fn spec_from_code(code: u8) -> Option<Tag> {
        if code == 0x00 {
            Some(Tag::End)
        } else if code == 0x01 {
            Some(Tag::U8)
        } else if code == 0x02 {
            Some(Tag::U16)
        } else if code == 0x03 {
            Some(Tag::U32)
        } else if code == 0x04 {
            Some(Tag::U64)
        } else if code == 0x05 {
            Some(Tag::F32)
        } else if code == 0x06 {
            Some(Tag::F64)
        } else if code == 0x07 {
            Some(Tag::Bytes)
        } else if code == 0x08 {
            Some(Tag::Str)
        } else if code == 0x09 {
            Some(Tag::Sequence)
        } else if code == 0x0a {
            Some(Tag::Compound)
        } else {
            None
        }
    }

    #[verifier::when_used_as_spec(spec_code)]
    pub fn code(self) -> (code: u8)
        ensures
            code == self.spec_code(),
    {
        match self {
            Tag::End => 0x00,
            Tag::U8 => 0x01,
            Tag::U16 => 0x02,
            Tag::U32 => 0x03,
            Tag::U64 => 0x04,
            Tag::F32 => 0x05,
            Tag::F64 => 0x06,
            Tag::Bytes => 0x07,
            Tag::Str => 0x08,
            Tag::Sequence => 0x09,
            Tag::Compound => 0x0a,
        }
    }

    #[verifier::when_used_as_spec(spec_from_code)]
    pub fn from_code(code: u8) -> (tag: Option<Tag>)
        ensures
            tag == Tag::spec_from_code(code),
    {
        match code {
            0x00 => Some(Tag::End),
            0x01 => Some(Tag::U8),
            0x02 => Some(Tag::U16),
            0x03 => Some(Tag::U32),
            0x04 => Some(Tag::U64),
            0x05 => Some(Tag::F32),
            0x06 => Some(Tag::F64),
            0x07 => Some(Tag::Bytes),
            0x08 => Some(Tag::Str),
            0x09 => Some(Tag::Sequence),
            0x0a => Some(Tag::Compound),
            _ => None,
        }
    }
}

/// Every tag is found again from its code, and a code from its tag.
pub proof fn lemma_tag_code_round_trip(tag: Tag, code: u8)
    ensures
        Tag::spec_from_code(tag.spec_code()) == Some(tag),
        Tag::spec_from_code(code) matches Some(t) ==> t.spec_code() == code,
        Tag::spec_from_code(code) is Some <==> code <= 0x0a,
{
}

} // verus!

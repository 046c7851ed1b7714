//! The failures of encoding and decoding.

use vstd::prelude::*;

verus! {

/// Why an encode or decode call was abandoned.
#[derive(Debug)]
pub enum Error {
    /// A failure described only by its text.
    Message(String),
    /// The input ended in the middle of a value.
    Eof,
    /// A name of this many bytes does not fit the two-byte length field.
    StrLen(usize),
    /// A sequence of this many elements does not fit the four-byte signed count.
    SeqLen(usize),
    /// Text could not be converted to or from modified UTF-8; the
    /// transcoder's own message is kept.
    Mutf8(String),
    /// The input does not start with the magic number and version.
    InvalidHeader,
    /// A value was written while no field obligation was pending.
    FieldInfoUnset,
    /// A tag byte that the format does not define.
    UnrecognizedTag(u8),
    /// A kind of value for which the format has no framing.
    Unsupported,
}

/// What an [`Error`] says, without the texts that it carries. Contracts
/// speak of faults.
pub enum Fault {
    /// A failure described only by its text.
    Message,
    /// The input ended in the middle of a value.
    Eof,
    /// A name of this many bytes does not fit the two-byte length field.
    StrLen(nat),
    /// A sequence of this many elements does not fit the four-byte signed count.
    SeqLen(nat),
    /// Text could not be converted to or from modified UTF-8.
    Transcode,
    /// The input does not start with the magic number and version.
    InvalidHeader,
    /// A value was written while no field obligation was pending.
    FieldInfoUnset,
    /// A tag byte that the format does not define.
    UnrecognizedTag(u8),
    /// A kind of value for which the format has no framing.
    Unsupported,
}

impl View for Error {
    type V = Fault;

    open spec fn view(&self) -> Fault {
        match self {
            Error::Message(_) => Fault::Message,
            Error::Eof => Fault::Eof,
            Error::StrLen(n) => Fault::StrLen(*n as nat),
            Error::SeqLen(n) => Fault::SeqLen(*n as nat),
            Error::Mutf8(_) => Fault::Transcode,
            Error::InvalidHeader => Fault::InvalidHeader,
            Error::FieldInfoUnset => Fault::FieldInfoUnset,
            Error::UnrecognizedTag(code) => Fault::UnrecognizedTag(*code),
            Error::Unsupported => Fault::Unsupported,
        }
    }
}

} // verus!

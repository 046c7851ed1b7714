//! Text on the wire: the conversion between UTF-8 and modified UTF-8.
//!
//! The conversion itself is the work of the `mutf8` crate. Verus does not
//! read that crate, so what it returns is given a name here. The contracts
//! of the four functions that call into `mutf8` and into std are believed,
//! not proved; everything else is proved from them.

use vstd::prelude::*;
use vstd::utf8::*;

verus! {

/// What `mutf8::utf8_to_mutf8` returns for the UTF-8 bytes `utf8`: the
/// modified UTF-8 bytes, or `None` where it reports an error.
pub uninterp spec fn mutf8_encoded(utf8: Seq<u8>) -> Option<Seq<u8>>;

/// What `mutf8::mutf8_to_utf8` returns for the bytes `mutf8`: the UTF-8
/// bytes, or `None` where it reports an error.
pub uninterp spec fn mutf8_decoded(mutf8: Seq<u8>) -> Option<Seq<u8>>;

/// The bytes that stand for `text` on the wire, if the transcoder accepts it.
pub open spec fn wire_text(text: Seq<char>) -> Option<Seq<u8>> {
    mutf8_encoded(encode_utf8(text))
}

/// The text that the wire bytes `bytes` stand for: the transcoder's output,
/// where that is well-formed UTF-8.
pub open spec fn text_of_wire(bytes: Seq<u8>) -> Option<Seq<char>> {
    match mutf8_decoded(bytes) {
        Some(utf8) => if valid_utf8(utf8) {
            Some(decode_utf8(utf8))
        } else {
            None
        },
        None => None,
    }
}

/// Calls `mutf8::utf8_to_mutf8`. Believed: the call is a function of its
/// input alone, so its outcome is `mutf8_encoded` of the input, with the
/// crate's message in place of its error. The input must be well-formed
/// UTF-8: on some ill-formed four-byte sequences the crate's arithmetic
/// overflows.
#[verifier::external_body]
pub(crate) fn utf8_to_mutf8(utf8: &[u8]) -> (r: Result<Vec<u8>, String>)
    requires
        valid_utf8(utf8@),
    ensures
        match r {
            Ok(bytes) => mutf8_encoded(utf8@) == Some(bytes@),
            Err(_) => mutf8_encoded(utf8@) is None,
        },
{
    match mutf8::utf8_to_mutf8(utf8) {
        Ok(bytes) => Ok(bytes.into_owned()),
        Err(e) => Err(e.to_string()),
    }
}

/// Calls `mutf8::mutf8_to_utf8`. Believed: the call is a function of its
/// input alone, so its outcome is `mutf8_decoded` of the input, with the
/// crate's message in place of its error.
#[verifier::external_body]
pub(crate) fn mutf8_to_utf8(mutf8: &[u8]) -> (r: Result<Vec<u8>, String>)
    ensures
        match r {
            Ok(bytes) => mutf8_decoded(mutf8@) == Some(bytes@),
            Err(_) => mutf8_decoded(mutf8@) is None,
        },
{
    match mutf8::mutf8_to_utf8(mutf8) {
        Ok(bytes) => Ok(bytes.into_owned()),
        Err(e) => Err(e.to_string()),
    }
}

/// Calls `String::from_utf8`. Believed, as std documents it: the bytes become
/// a string exactly when they are well-formed UTF-8, and the string then
/// holds the characters that they encode.
#[verifier::external_body]
pub(crate) fn string_from_utf8(utf8: Vec<u8>) -> (r: Option<String>)
    ensures
        r is Some <==> valid_utf8(utf8@),
        r matches Some(text) ==> text@ == decode_utf8(utf8@),
{
    String::from_utf8(utf8).ok()
}

/// Calls `char::to_string`. Believed, as std documents it: the string holds
/// that one character.
#[verifier::external_body]
pub(crate) fn char_to_string(c: char) -> (text: String)
    ensures
        text@ == seq![c],
{
    c.to_string()
}

/// Converts text to its wire bytes.
pub fn encode_text(text: &str) -> (r: Result<Vec<u8>, String>)
    ensures
        match r {
            Ok(bytes) => wire_text(text@) == Some(bytes@),
            Err(_) => wire_text(text@) is None,
        },
{
    broadcast use encode_utf8_valid_utf8;

    utf8_to_mutf8(text.as_bytes())
}

/// Converts wire bytes back to text.
pub fn decode_text(bytes: &[u8]) -> (r: Result<String, String>)
    ensures
        match r {
            Ok(text) => text_of_wire(bytes@) == Some(text@),
            Err(_) => text_of_wire(bytes@) is None,
        },
{
    match mutf8_to_utf8(bytes) {
        Ok(utf8) => match string_from_utf8(utf8) {
            Some(text) => Ok(text),
            None => Err("the transcoded text is not valid UTF-8".to_owned()),
        },
        Err(message) => Err(message),
    }
}

} // verus!

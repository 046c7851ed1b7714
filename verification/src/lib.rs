//! ShadeNBT: a compact, self-describing binary encoding of typed value trees.
//!
//! A document is a seven-byte header followed by the payload of one root
//! value. Values inside a compound are framed by a tag, a length-prefixed
//! name and their payload; the elements of a sequence share one tag and one
//! count. [`to_vec`] encodes a [`Value`], [`from_slice`] decodes one, and the
//! [`Serializer`] and [`Deserializer`] expose the same steps one at a time.
//!
//! The module [`wire`] states the format over byte sequences, and every
//! function here is proved against it. The module [`laws`] proves what holds
//! of the format as a whole. Texts and blobs carry no length on the wire: a
//! decoded text runs up to the next zero byte, a decoded blob to the end of
//! the input, so not every tree that can be written is read back as it was.
//! [`laws::delimited`] says which are.

pub mod de;
pub mod error;
pub mod laws;
pub mod ser;
pub mod tag;
pub mod transcode;
pub mod value;
pub mod wire;

pub use de::{from_slice, from_slice_as, Deserializer};
pub use error::{Error, Fault};
pub use ser::{to_vec, FieldInfo, Serializer};
pub use tag::Tag;
pub use value::{Field, Tree, Value};

use shadenbt::ser::write_header;
use shadenbt::{Error, FieldInfo, Serializer};

const HEADER: [u8; 7] = [0xAD, 0x4E, 0x42, 0x54, 0x00, 0x04, 0x80];

fn started() -> Serializer {
    Serializer::new(Vec::new()).unwrap()
}

/// A serializer inside the root compound, with nothing pending.
fn in_root() -> Serializer {
    let mut s = started();
    s.serialize_struct("Root", 0).unwrap();
    s
}

fn payload(s: Serializer) -> Vec<u8> {
    let bytes = s.into_inner();
    assert_eq!(&bytes[..7], &HEADER);
    bytes[7..].to_vec()
}

#[test]
fn header_bytes() {
    let mut w = vec![0x11];
    write_header(&mut w);
    assert_eq!(w, [0x11, 0xAD, 0x4E, 0x42, 0x54, 0x00, 0x04, 0x80]);
}

#[test]
fn new_appends_the_header() {
    let s = Serializer::new(vec![1, 2]).unwrap();
    assert_eq!(s.into_inner(), [1, 2, 0xAD, 0x4E, 0x42, 0x54, 0x00, 0x04, 0x80]);
}

#[test]
fn field_info_root_writes_nothing() {
    let mut info = FieldInfo::Root;
    let mut w = Vec::new();
    info.write(0x01, &mut w).unwrap();
    assert!(w.is_empty());
    assert!(matches!(info, FieldInfo::Unset));
}

#[test]
fn field_info_named_writes_tag_and_length() {
    let mut info = FieldInfo::Named(b"abc".to_vec());
    let mut w = vec![9];
    info.write(0x04, &mut w).unwrap();
    assert_eq!(w, [9, 0x04, 0x03, 0x00]);
    assert!(matches!(info, FieldInfo::Unset));
}

#[test]
fn field_info_named_length_is_little_endian() {
    let mut info = FieldInfo::Named(vec![b'a'; 0x1234]);
    let mut w = Vec::new();
    info.write(0x08, &mut w).unwrap();
    assert_eq!(w, [0x08, 0x34, 0x12]);
}

#[test]
fn field_info_oversized_name_writes_nothing() {
    let mut info = FieldInfo::Named(vec![b'a'; 65536]);
    let mut w = vec![9];
    assert!(matches!(info.write(0x01, &mut w), Err(Error::StrLen(65536))));
    assert_eq!(w, [9]);
    assert!(matches!(info, FieldInfo::Unset));
}

#[test]
fn field_info_first_element_writes_tag_and_count() {
    let mut info = FieldInfo::InSeq(Some(3));
    let mut w = Vec::new();
    info.write(0x03, &mut w).unwrap();
    assert_eq!(w, [0x03, 0x03, 0x00, 0x00, 0x00]);
    assert!(matches!(info, FieldInfo::Unset));
}

#[test]
fn field_info_count_is_signed_little_endian() {
    let mut w = Vec::new();
    FieldInfo::InSeq(Some(0x0102_0304)).write(0x01, &mut w).unwrap();
    assert_eq!(w, [0x01, 0x04, 0x03, 0x02, 0x01]);
    let mut w = Vec::new();
    FieldInfo::InSeq(Some(-2)).write(0x01, &mut w).unwrap();
    assert_eq!(w, [0x01, 0xFE, 0xFF, 0xFF, 0xFF]);
    let mut w = Vec::new();
    FieldInfo::InSeq(Some(i32::MIN)).write(0x01, &mut w).unwrap();
    assert_eq!(w, [0x01, 0x00, 0x00, 0x00, 0x80]);
}

#[test]
fn field_info_later_element_writes_nothing() {
    let mut info = FieldInfo::InSeq(None);
    let mut w = Vec::new();
    info.write(0x03, &mut w).unwrap();
    assert!(w.is_empty());
    assert!(matches!(info, FieldInfo::Unset));
}

#[test]
fn field_info_unset_is_a_fault() {
    let mut info = FieldInfo::Unset;
    let mut w = Vec::new();
    assert!(matches!(info.write(0x01, &mut w), Err(Error::FieldInfoUnset)));
    assert!(w.is_empty());
}

#[test]
fn value_without_obligation_is_a_fault() {
    let mut s = in_root();
    assert!(matches!(s.serialize_u8(1), Err(Error::FieldInfoUnset)));
    assert!(payload(s).is_empty());
}

#[test]
fn obligation_is_consumed_by_one_value() {
    let mut s = in_root();
    s.serialize_field("a").unwrap();
    s.serialize_u8(1).unwrap();
    assert!(matches!(s.serialize_u8(2), Err(Error::FieldInfoUnset)));
    assert_eq!(payload(s), [0x01, 1, 0, b'a', 1]);
}

#[test]
fn streamed_record() {
    let mut s = in_root();
    s.serialize_field("x").unwrap();
    s.serialize_u8(5).unwrap();
    s.end().unwrap();
    assert_eq!(payload(s), [0x01, 0x01, 0x00, b'x', 0x05, 0x00]);
}

#[test]
fn streamed_sequence() {
    let mut s = in_root();
    s.serialize_field("s").unwrap();
    s.serialize_seq(Some(3)).unwrap();
    for v in [1u32, 2, 3] {
        s.serialize_element().unwrap();
        s.serialize_u32(v).unwrap();
    }
    s.end_seq().unwrap();
    s.end().unwrap();
    assert_eq!(
        payload(s),
        [0x09, 1, 0, b's', 0x03, 3, 0, 0, 0, 1, 0, 0, 0, 2, 0, 0, 0, 3, 0, 0, 0, 0x00]
    );
}

#[test]
fn empty_sequence_leaves_nothing_pending() {
    let mut s = in_root();
    s.serialize_field("e").unwrap();
    s.serialize_seq(Some(0)).unwrap();
    s.end_seq().unwrap();
    assert!(matches!(s.serialize_u8(1), Err(Error::FieldInfoUnset)));
    assert_eq!(payload(s), [0x09, 1, 0, b'e']);
}

#[test]
fn signed_integers_keep_their_bits() {
    let mut s = in_root();
    s.serialize_field("a").unwrap();
    s.serialize_i8(-1).unwrap();
    s.serialize_field("b").unwrap();
    s.serialize_i16(-2).unwrap();
    s.serialize_field("c").unwrap();
    s.serialize_i32(i32::MIN).unwrap();
    s.serialize_field("d").unwrap();
    s.serialize_i64(-3).unwrap();
    s.serialize_field("e").unwrap();
    s.serialize_i64(5).unwrap();
    assert_eq!(
        payload(s),
        [
            0x01, 1, 0, b'a', 0xFF, //
            0x02, 1, 0, b'b', 0xFE, 0xFF, //
            0x03, 1, 0, b'c', 0x00, 0x00, 0x00, 0x80, //
            0x04, 1, 0, b'd', 0xFD, 0xFF, 0xFF, 0xFF, 0xFF, 0xFF, 0xFF, 0xFF, //
            0x04, 1, 0, b'e', 5, 0, 0, 0, 0, 0, 0, 0,
        ]
    );
}

#[test]
fn booleans_are_bytes() {
    let mut s = in_root();
    s.serialize_field("t").unwrap();
    s.serialize_bool(true).unwrap();
    s.serialize_field("f").unwrap();
    s.serialize_bool(false).unwrap();
    assert_eq!(payload(s), [0x01, 1, 0, b't', 1, 0x01, 1, 0, b'f', 0]);
}

#[test]
fn characters_are_texts() {
    let mut s = in_root();
    s.serialize_field("c").unwrap();
    s.serialize_char('x').unwrap();
    s.serialize_field("z").unwrap();
    s.serialize_char('\0').unwrap();
    assert_eq!(payload(s), [0x08, 1, 0, b'c', b'x', 0x08, 1, 0, b'z', 0xC0, 0x80]);
}

#[test]
fn floats_by_bits() {
    let mut s = in_root();
    s.serialize_field("f").unwrap();
    s.serialize_f32(0x3FC0_0000).unwrap();
    s.serialize_field("d").unwrap();
    s.serialize_f64(0x4000_0000_0000_0000).unwrap();
    assert_eq!(
        payload(s),
        [0x05, 1, 0, b'f', 0, 0, 0xC0, 0x3F, 0x06, 1, 0, b'd', 0, 0, 0, 0, 0, 0, 0, 0x40]
    );
}

#[test]
fn blobs_are_written_verbatim() {
    let mut s = in_root();
    s.serialize_field("b").unwrap();
    s.serialize_bytes(&[0, 1, 2, 0]).unwrap();
    assert_eq!(payload(s), [0x07, 1, 0, b'b', 0, 1, 2, 0]);
}

#[test]
fn wide_integers_are_refused() {
    let mut s = in_root();
    s.serialize_field("w").unwrap();
    assert!(matches!(s.serialize_i128(1), Err(Error::Unsupported)));
    assert!(matches!(s.serialize_u128(1), Err(Error::Unsupported)));
    // The obligation is still pending.
    s.serialize_u8(1).unwrap();
    assert_eq!(payload(s), [0x01, 1, 0, b'w', 1]);
}

#[test]
fn sequence_of_unknown_length_is_refused() {
    let mut s = in_root();
    s.serialize_field("s").unwrap();
    assert!(matches!(s.serialize_seq(None), Err(Error::Unsupported)));
    assert!(payload(s).is_empty());
}

#[test]
fn sequence_longer_than_the_count_is_refused() {
    let mut s = in_root();
    s.serialize_field("s").unwrap();
    assert!(matches!(s.serialize_seq(Some(0x8000_0000)), Err(Error::SeqLen(0x8000_0000))));
    assert!(payload(s).is_empty());
    let mut s = in_root();
    s.serialize_field("s").unwrap();
    s.serialize_seq(Some(0x7FFF_FFFF)).unwrap();
    assert_eq!(payload(s), [0x09, 1, 0, b's']);
}

#[test]
fn oversized_name_writes_no_partial_bytes() {
    let mut s = in_root();
    s.serialize_field("a").unwrap();
    s.serialize_u8(1).unwrap();
    s.serialize_field(&"n".repeat(65536)).unwrap();
    assert!(matches!(s.serialize_u32(7), Err(Error::StrLen(65536))));
    assert_eq!(payload(s), [0x01, 1, 0, b'a', 1]);
}

#[test]
fn oversized_name_fails_for_containers_too() {
    let mut s = in_root();
    s.serialize_field(&"n".repeat(65536)).unwrap();
    assert!(matches!(s.serialize_struct("Inner", 1), Err(Error::StrLen(65536))));
    assert!(payload(s).is_empty());
    let mut s = in_root();
    s.serialize_field(&"n".repeat(65536)).unwrap();
    assert!(matches!(s.serialize_seq(Some(1)), Err(Error::StrLen(65536))));
    assert!(payload(s).is_empty());
    let mut s = in_root();
    s.serialize_field(&"n".repeat(65536)).unwrap();
    assert!(matches!(s.serialize_str("text"), Err(Error::StrLen(65536))));
    assert!(payload(s).is_empty());
}

#[test]
fn later_field_replaces_a_pending_name() {
    let mut s = in_root();
    s.serialize_field("a").unwrap();
    s.serialize_field("b").unwrap();
    s.serialize_u8(1).unwrap();
    assert_eq!(payload(s), [0x01, 1, 0, b'b', 1]);
}

#[test]
fn kinds_without_framing_are_refused() {
    let mut s = in_root();
    s.serialize_field("k").unwrap();
    assert!(matches!(s.serialize_none(), Err(Error::Unsupported)));
    assert!(matches!(s.serialize_some(), Err(Error::Unsupported)));
    assert!(matches!(s.serialize_unit(), Err(Error::Unsupported)));
    assert!(matches!(s.serialize_unit_struct("U"), Err(Error::Unsupported)));
    assert!(matches!(s.serialize_unit_variant("E", 0, "A"), Err(Error::Unsupported)));
    assert!(matches!(s.serialize_newtype_variant("E", 1, "B"), Err(Error::Unsupported)));
    assert!(matches!(s.serialize_map(Some(1)), Err(Error::Unsupported)));
    assert!(matches!(s.serialize_tuple(2), Err(Error::Unsupported)));
    assert!(matches!(s.serialize_tuple_struct("T", 2), Err(Error::Unsupported)));
    assert!(matches!(s.serialize_tuple_variant("E", 2, "C", 2), Err(Error::Unsupported)));
    assert!(matches!(s.serialize_struct_variant("E", 3, "D", 1), Err(Error::Unsupported)));
    // Nothing was written, and the field is still owed its frame.
    s.serialize_u8(1).unwrap();
    assert_eq!(payload(s), [0x01, 1, 0, b'k', 1]);
}

#[test]
fn raw_names_and_texts_are_written_as_given() {
    let mut s = in_root();
    s.serialize_raw_field(vec![0xC0, 0x80]).unwrap();
    s.serialize_raw_str(&[b'h', 0xC0, 0x80]).unwrap();
    s.serialize_raw_field(Vec::new()).unwrap();
    s.serialize_raw_str(&[]).unwrap();
    s.end().unwrap();
    assert_eq!(payload(s), [0x08, 2, 0, 0xC0, 0x80, b'h', 0xC0, 0x80, 0x08, 0, 0, 0x00]);
}

#[test]
fn raw_name_of_65536_bytes_is_a_length_overflow() {
    let mut s = in_root();
    s.serialize_raw_field(vec![b'n'; 65536]).unwrap();
    assert!(matches!(s.serialize_raw_str(b"text"), Err(Error::StrLen(65536))));
    assert!(payload(s).is_empty());
}

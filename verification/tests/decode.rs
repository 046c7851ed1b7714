use shadenbt::de::read_header;
use shadenbt::{from_slice, from_slice_as, to_vec, Deserializer, Error, Field, Tag, Value};

const HEADER: [u8; 7] = [0xAD, 0x4E, 0x42, 0x54, 0x00, 0x04, 0x80];

fn field(name: &str, value: Value) -> Field {
    Field { name: name.to_string(), value }
}

fn document(payload: &[u8]) -> Vec<u8> {
    let mut bytes = HEADER.to_vec();
    bytes.extend_from_slice(payload);
    bytes
}

fn round_trip(value: Value) {
    let bytes = to_vec(&value).unwrap();
    assert_eq!(from_slice_as(&bytes, value.tag()).unwrap(), value);
}

#[test]
fn header_is_read() {
    assert_eq!(read_header(&HEADER).unwrap(), 0x80);
    assert_eq!(read_header(&[0xAD, 0x4E, 0x42, 0x54, 0x00, 0x04, 0x17, 0xFF]).unwrap(), 0x17);
}

#[test]
fn wrong_magic_is_rejected() {
    let mut bytes = document(&[0x00]);
    bytes[0] = 0xAE;
    assert!(matches!(from_slice(&bytes), Err(Error::InvalidHeader)));
    assert!(matches!(read_header(&bytes), Err(Error::InvalidHeader)));
    assert!(matches!(Deserializer::new(&bytes), Err(Error::InvalidHeader)));
}

#[test]
fn wrong_version_is_rejected() {
    let bytes = [0xAD, 0x4E, 0x42, 0x54, 0x00, 0x05, 0x80, 0x00];
    assert!(matches!(from_slice(&bytes), Err(Error::InvalidHeader)));
}

#[test]
fn every_wrong_byte_of_the_header_is_rejected() {
    for i in 0..6 {
        let mut bytes = document(&[0x00]);
        bytes[i] ^= 0x01;
        assert!(matches!(from_slice(&bytes), Err(Error::InvalidHeader)));
    }
}

#[test]
fn wrong_header_is_rejected_whatever_follows() {
    let six = [0u8; 6];
    assert!(matches!(from_slice(&six), Err(Error::InvalidHeader)));
    let mut long = vec![0xFFu8; 6];
    long.extend_from_slice(&[0x80, 0x01, 0x01, 0x00, b'x', 0x05, 0x00]);
    assert!(matches!(from_slice(&long), Err(Error::InvalidHeader)));
}

#[test]
fn short_header_is_truncated() {
    assert!(matches!(from_slice(&[]), Err(Error::Eof)));
    assert!(matches!(from_slice(&HEADER[..3]), Err(Error::Eof)));
    assert!(matches!(from_slice(&HEADER[..6]), Err(Error::Eof)));
}

#[test]
fn flags_are_kept_and_not_acted_on() {
    let set = Deserializer::new(&HEADER).unwrap();
    assert!(set.endianness());
    let clear = [0xAD, 0x4E, 0x42, 0x54, 0x00, 0x04, 0x7F, 0x00];
    assert!(!Deserializer::new(&clear).unwrap().endianness());
    assert_eq!(from_slice(&clear).unwrap(), Value::Compound(Vec::new()));
}

#[test]
fn empty_record_is_read() {
    assert_eq!(from_slice(&document(&[0x00])).unwrap(), Value::Compound(Vec::new()));
}

#[test]
fn header_alone_is_truncated() {
    assert!(matches!(from_slice(&HEADER), Err(Error::Eof)));
}

#[test]
fn tag_without_payload_is_truncated() {
    for tag in 1..=10u8 {
        assert!(matches!(from_slice(&document(&[tag])), Err(Error::Eof)));
    }
}

#[test]
fn name_without_payload_is_truncated() {
    assert!(matches!(from_slice(&document(&[0x01, 1, 0, b'x'])), Err(Error::Eof)));
    assert!(matches!(from_slice(&document(&[0x02, 1, 0, b'x', 1])), Err(Error::Eof)));
    assert!(matches!(from_slice(&document(&[0x03, 1, 0, b'x', 1, 2, 3])), Err(Error::Eof)));
    assert!(matches!(
        from_slice(&document(&[0x04, 1, 0, b'x', 1, 2, 3, 4, 5, 6, 7])),
        Err(Error::Eof)
    ));
    assert!(matches!(from_slice(&document(&[0x01, 2, 0, b'x'])), Err(Error::Eof)));
}

#[test]
fn missing_terminator_is_truncated() {
    assert!(matches!(from_slice(&document(&[0x01, 1, 0, b'x', 5])), Err(Error::Eof)));
}

#[test]
fn unknown_tag_is_reported() {
    assert!(matches!(
        from_slice(&document(&[0x0B, 1, 0, b'x', 5])),
        Err(Error::UnrecognizedTag(0x0B))
    ));
    assert!(matches!(from_slice(&document(&[0xFF])), Err(Error::UnrecognizedTag(0xFF))));
}

#[test]
fn unknown_element_tag_is_reported() {
    let bytes = document(&[0x09, 1, 0, b's', 0x0C, 1, 0, 0, 0, 5, 0x00]);
    assert!(matches!(from_slice(&bytes), Err(Error::UnrecognizedTag(0x0C))));
    let bytes = document(&[0x09, 1, 0, b's', 0x00, 0, 0, 0, 0, 0x00]);
    assert!(matches!(from_slice(&bytes), Err(Error::UnrecognizedTag(0x00))));
}

#[test]
fn negative_count_is_a_length_overflow() {
    let bytes = document(&[0x09, 1, 0, b's', 0x01, 0xFF, 0xFF, 0xFF, 0xFF, 0x00]);
    assert!(matches!(from_slice(&bytes), Err(Error::SeqLen(0xFFFF_FFFF))));
    let bytes = document(&[0x09, 1, 0, b's', 0x01, 0x00, 0x00, 0x00, 0x80, 0x00]);
    assert!(matches!(from_slice(&bytes), Err(Error::SeqLen(0x8000_0000))));
}

#[test]
fn count_beyond_the_input_is_truncated() {
    let bytes = document(&[0x09, 1, 0, b's', 0x01, 3, 0, 0, 0, 1, 2]);
    assert!(matches!(from_slice(&bytes), Err(Error::Eof)));
}

#[test]
fn named_scalar_is_read() {
    let bytes = document(&[0x01, 0x01, 0x00, b'x', 0x05, 0x00]);
    assert_eq!(from_slice(&bytes).unwrap(), Value::Compound(vec![field("x", Value::U8(5))]));
}

#[test]
fn scalars_are_little_endian() {
    let bytes = document(&[
        0x02, 1, 0, b'b', 0x34, 0x12, //
        0x03, 1, 0, b'c', 0x78, 0x56, 0x34, 0x12, //
        0x04, 1, 0, b'd', 8, 7, 6, 5, 4, 3, 2, 1, //
        0x05, 1, 0, b'e', 0, 0, 0xC0, 0x3F, //
        0x06, 1, 0, b'f', 0, 0, 0, 0, 0, 0, 0, 0x40, //
        0x00,
    ]);
    assert_eq!(
        from_slice(&bytes).unwrap(),
        Value::Compound(vec![
            field("b", Value::U16(0x1234)),
            field("c", Value::U32(0x1234_5678)),
            field("d", Value::U64(0x0102_0304_0506_0708)),
            field("e", Value::F32(1.5f32.to_bits())),
            field("f", Value::F64(2.0f64.to_bits())),
        ])
    );
}

#[test]
fn sequence_is_read_with_one_tag_and_count() {
    let bytes = document(&[
        0x09, 1, 0, b's', 0x03, 3, 0, 0, 0, 1, 0, 0, 0, 2, 0, 0, 0, 3, 0, 0, 0, 0x00,
    ]);
    assert_eq!(
        from_slice(&bytes).unwrap(),
        Value::Compound(vec![field(
            "s",
            Value::Sequence(vec![Value::U32(1), Value::U32(2), Value::U32(3)])
        )])
    );
}

#[test]
fn sequence_of_no_elements_is_read() {
    let bytes = document(&[0x09, 1, 0, b's', 0x03, 0, 0, 0, 0, 0x00]);
    assert_eq!(
        from_slice(&bytes).unwrap(),
        Value::Compound(vec![field("s", Value::Sequence(Vec::new()))])
    );
}

#[test]
fn unknown_field_names_are_kept() {
    let bytes = document(&[0x01, 3, 0, b'n', b'e', b'w', 1, 0x01, 0, 0, 2, 0x00]);
    assert_eq!(
        from_slice(&bytes).unwrap(),
        Value::Compound(vec![field("new", Value::U8(1)), field("", Value::U8(2))])
    );
}

#[test]
fn text_ends_before_the_terminator() {
    let bytes = document(&[0x08, 1, 0, b't', b'h', b'i', 0x00]);
    assert_eq!(
        from_slice(&bytes).unwrap(),
        Value::Compound(vec![field("t", Value::Str("hi".to_string()))])
    );
}

#[test]
fn text_is_transcoded_back() {
    let bytes = document(&[b'a', 0xC0, 0x80, b'b', 0xED, 0xA0, 0xBD, 0xED, 0xB8, 0x80]);
    assert_eq!(
        from_slice_as(&bytes, Tag::Str).unwrap(),
        Value::Str("a\0b\u{1F600}".to_string())
    );
}

#[test]
fn name_is_transcoded_back() {
    let bytes = document(&[0x01, 2, 0, 0xC0, 0x80, 7, 0x00]);
    assert_eq!(from_slice(&bytes).unwrap(), Value::Compound(vec![field("\0", Value::U8(7))]));
}

#[test]
fn text_runs_to_the_end_of_the_input() {
    assert_eq!(from_slice_as(&document(b"abc"), Tag::Str).unwrap(), Value::Str("abc".to_string()));
    assert_eq!(from_slice_as(&document(b""), Tag::Str).unwrap(), Value::Str(String::new()));
}

#[test]
fn ill_formed_text_is_a_transcoding_error() {
    // A lone continuation byte is not UTF-8.
    assert!(matches!(from_slice_as(&document(&[0x80]), Tag::Str), Err(Error::Mutf8(_))));
    // A two-byte sequence cut short.
    assert!(matches!(from_slice_as(&document(&[0xC3]), Tag::Str), Err(Error::Mutf8(_))));
    // An unpaired surrogate.
    assert!(matches!(
        from_slice_as(&document(&[0xED, 0xA0, 0xBD]), Tag::Str),
        Err(Error::Mutf8(_))
    ));
}

#[test]
fn ill_formed_name_is_a_transcoding_error() {
    let bytes = document(&[0x01, 1, 0, 0xFF, 7, 0x00]);
    assert!(matches!(from_slice(&bytes), Err(Error::Mutf8(_))));
}

#[test]
fn blob_takes_the_rest_of_the_input() {
    assert_eq!(
        from_slice_as(&document(&[1, 0, 2, 0]), Tag::Bytes).unwrap(),
        Value::Bytes(vec![1, 0, 2, 0])
    );
    // Inside a compound the blob swallows the terminator, and the compound is cut short.
    assert!(matches!(from_slice(&document(&[0x07, 1, 0, b'b', 1, 2, 0x00])), Err(Error::Eof)));
}

#[test]
fn root_can_be_any_kind() {
    assert_eq!(from_slice_as(&document(&[9]), Tag::U8).unwrap(), Value::U8(9));
    assert_eq!(from_slice_as(&document(&[9, 1]), Tag::U16).unwrap(), Value::U16(0x0109));
    assert_eq!(
        from_slice_as(&document(&[0x01, 2, 0, 0, 0, 7, 8]), Tag::Sequence).unwrap(),
        Value::Sequence(vec![Value::U8(7), Value::U8(8)])
    );
    assert!(matches!(from_slice_as(&document(&[]), Tag::End), Err(Error::UnrecognizedTag(0))));
}

#[test]
fn bytes_after_the_root_are_ignored() {
    assert_eq!(from_slice(&document(&[0x00, 1, 2, 3])).unwrap(), Value::Compound(Vec::new()));
}

#[test]
fn round_trip_of_records() {
    round_trip(Value::Compound(Vec::new()));
    round_trip(Value::Compound(vec![field("x", Value::U8(5))]));
    round_trip(Value::Compound(vec![
        field("a", Value::U8(0xFF)),
        field("b", Value::U16(0xFFFF)),
        field("c", Value::U32(0xFFFF_FFFF)),
        field("d", Value::U64(u64::MAX)),
        field("e", Value::F32(f32::NAN.to_bits())),
        field("f", Value::F64(f64::NEG_INFINITY.to_bits())),
        field(
            "inner",
            Value::Compound(vec![field("y", Value::U16(1)), field("z", Value::Compound(Vec::new()))]),
        ),
        field("seq", Value::Sequence(vec![Value::U64(1), Value::U64(2)])),
        field("last", Value::Str("tail \0 \u{10FFFF} é".to_string())),
    ]));
}

#[test]
fn round_trip_of_sequences() {
    round_trip(Value::Sequence(vec![Value::U32(1), Value::U32(2), Value::U32(3)]));
    round_trip(Value::Sequence(vec![
        Value::Sequence(vec![Value::U8(1), Value::U8(2)]),
        Value::Sequence(vec![Value::U16(3)]),
    ]));
    round_trip(Value::Sequence(vec![
        Value::Compound(vec![field("name", Value::Str("first".to_string()))]),
        Value::Compound(vec![field("name", Value::Str("second".to_string()))]),
        Value::Compound(Vec::new()),
    ]));
    round_trip(Value::Compound(vec![field(
        "only",
        Value::Sequence(vec![Value::Str("one text, then the terminator".to_string())]),
    )]));
}

#[test]
fn round_trip_of_roots_without_parts() {
    round_trip(Value::U8(1));
    round_trip(Value::U64(0xDEAD_BEEF_0BAD_F00D));
    round_trip(Value::Str("root".to_string()));
    round_trip(Value::Bytes(vec![0, 1, 0, 2]));
}

#[test]
fn text_before_another_field_does_not_round_trip() {
    // A text has no length on the wire: it runs up to the next zero byte.
    let value = Value::Compound(vec![
        field("t", Value::Str("hi".to_string())),
        field("n", Value::U8(5)),
    ]);
    let bytes = to_vec(&value).unwrap();
    assert_eq!(bytes, document(&[0x08, 1, 0, b't', b'h', b'i', 0x01, 1, 0, b'n', 5, 0x00]));
    assert_eq!(
        from_slice(&bytes).unwrap(),
        Value::Compound(vec![field("t", Value::Str("hi\u{1}\u{1}".to_string()))])
    );
}

#[test]
fn empty_sequence_does_not_round_trip() {
    let value = Value::Compound(vec![field("e", Value::Sequence(Vec::new()))]);
    let bytes = to_vec(&value).unwrap();
    assert!(matches!(from_slice(&bytes), Err(Error::UnrecognizedTag(0))));
}

#[test]
fn typed_reads() {
    let bytes = document(&[
        0xFF, // i8
        0xFE, 0xFF, // i16
        0x00, 0x00, 0x00, 0x80, // i32
        0xFD, 0xFF, 0xFF, 0xFF, 0xFF, 0xFF, 0xFF, 0xFF, // i64
        0x00, 0x01, 0x02, // booleans
        0x07, 0x34, 0x12, 0x78, 0x56, 0x34, 0x12, // u8, u16, u32
        8, 7, 6, 5, 4, 3, 2, 1, // u64
        b'h', b'i', 0x00, // text, then a zero byte
        9, 9, // blob
    ]);
    let mut d = Deserializer::new(&bytes).unwrap();
    assert_eq!(d.available(), bytes.len() - 7);
    assert_eq!(d.deserialize_i8().unwrap(), -1);
    assert_eq!(d.deserialize_i16().unwrap(), -2);
    assert_eq!(d.deserialize_i32().unwrap(), i32::MIN);
    assert_eq!(d.deserialize_i64().unwrap(), -3);
    assert!(!d.deserialize_bool().unwrap());
    assert!(d.deserialize_bool().unwrap());
    assert!(d.deserialize_bool().unwrap());
    assert_eq!(d.deserialize_u8().unwrap(), 7);
    assert_eq!(d.deserialize_u16().unwrap(), 0x1234);
    assert_eq!(d.deserialize_u32().unwrap(), 0x1234_5678);
    assert_eq!(d.deserialize_u64().unwrap(), 0x0102_0304_0506_0708);
    assert_eq!(d.deserialize_str().unwrap(), "hi");
    assert_eq!(d.available(), 3);
    assert_eq!(d.deserialize_u8().unwrap(), 0);
    assert_eq!(d.deserialize_bytes().unwrap(), [9, 9]);
    assert_eq!(d.available(), 0);
    assert!(matches!(d.deserialize_u8(), Err(Error::Eof)));
    assert_eq!(d.deserialize_bytes().unwrap(), []);
    assert_eq!(d.deserialize_str().unwrap(), "");
}

#[test]
fn failed_read_does_not_move() {
    let bytes = document(&[1, 2, 3]);
    let mut d = Deserializer::new(&bytes).unwrap();
    assert!(matches!(d.deserialize_u32(), Err(Error::Eof)));
    assert!(matches!(d.deserialize_u64(), Err(Error::Eof)));
    assert!(matches!(d.deserialize_seq(), Err(Error::Eof)));
    assert_eq!(d.available(), 3);
    assert_eq!(d.deserialize_u16().unwrap(), 0x0201);
    assert_eq!(d.deserialize_u8().unwrap(), 3);
}

#[test]
fn headers_of_sequences_and_fields() {
    let bytes = document(&[0x04, 2, 0, 0, 0, 0x08, 2, 0, b'a', b'b', 0x00]);
    let mut d = Deserializer::new(&bytes).unwrap();
    assert_eq!(d.deserialize_seq().unwrap(), (Tag::U64, 2));
    assert_eq!(d.deserialize_identifier().unwrap(), Some((Tag::Str, "ab".to_string())));
    assert_eq!(d.deserialize_identifier().unwrap(), None);
    assert!(matches!(d.deserialize_identifier(), Err(Error::Eof)));
}

#[test]
fn fields_up_to_the_terminator() {
    let bytes = document(&[0x01, 1, 0, b'a', 1, 0x01, 1, 0, b'b', 2, 0x00, 0x55]);
    let mut d = Deserializer::new(&bytes).unwrap();
    assert_eq!(
        d.deserialize_struct().unwrap(),
        vec![field("a", Value::U8(1)), field("b", Value::U8(2))]
    );
    assert_eq!(d.available(), 1);
}

#[test]
fn tags_and_codes() {
    let tags = [
        Tag::End,
        Tag::U8,
        Tag::U16,
        Tag::U32,
        Tag::U64,
        Tag::F32,
        Tag::F64,
        Tag::Bytes,
        Tag::Str,
        Tag::Sequence,
        Tag::Compound,
    ];
    for (code, tag) in tags.iter().enumerate() {
        assert_eq!(tag.code(), code as u8);
        assert_eq!(Tag::from_code(code as u8), Some(*tag));
    }
    for code in 11..=255u8 {
        assert_eq!(Tag::from_code(code), None);
    }
}

#[test]
fn more_typed_reads() {
    let bytes = document(&[
        0, 0, 0xC0, 0x3F, // the bits of 1.5f32
        0, 0, 0, 0, 0, 0, 0, 0x40, // the bits of 2.0f64
        b'x', 0x00, // a character
        0xE2, 0x82, 0xAC, 0x00, // another
        b'a', b'b', 0x00, // two characters
        b's', 0x00, // a text
        7, 8, // a blob
    ]);
    let mut d = Deserializer::new(&bytes).unwrap();
    assert_eq!(f32::from_bits(d.deserialize_f32().unwrap()), 1.5);
    assert_eq!(f64::from_bits(d.deserialize_f64().unwrap()), 2.0);
    assert_eq!(d.deserialize_char().unwrap(), 'x');
    assert_eq!(d.deserialize_u8().unwrap(), 0);
    assert_eq!(d.deserialize_char().unwrap(), '\u{20AC}');
    assert_eq!(d.deserialize_u8().unwrap(), 0);
    let before = d.available();
    assert!(matches!(d.deserialize_char(), Err(Error::Message(_))));
    assert_eq!(d.available(), before);
    assert_eq!(d.deserialize_string().unwrap(), "ab");
    assert_eq!(d.deserialize_u8().unwrap(), 0);
    assert_eq!(d.deserialize_string().unwrap(), "s");
    assert_eq!(d.deserialize_u8().unwrap(), 0);
    assert_eq!(d.deserialize_byte_buf().unwrap(), [7, 8]);
    assert!(matches!(d.deserialize_char(), Err(Error::Message(_))));
}

#[test]
fn kinds_without_framing_are_not_read() {
    let bytes = document(&[1, 2, 3]);
    let mut d = Deserializer::new(&bytes).unwrap();
    assert!(matches!(d.deserialize_i128(), Err(Error::Unsupported)));
    assert!(matches!(d.deserialize_u128(), Err(Error::Unsupported)));
    assert!(matches!(d.deserialize_option(), Err(Error::Unsupported)));
    assert!(matches!(d.deserialize_unit(), Err(Error::Unsupported)));
    assert!(matches!(d.deserialize_unit_struct("U"), Err(Error::Unsupported)));
    assert!(matches!(d.deserialize_tuple(2), Err(Error::Unsupported)));
    assert!(matches!(d.deserialize_tuple_struct("T", 2), Err(Error::Unsupported)));
    assert!(matches!(d.deserialize_map(), Err(Error::Unsupported)));
    assert!(matches!(d.deserialize_enum("E"), Err(Error::Unsupported)));
    assert_eq!(d.available(), 3);
}

#[test]
fn clone_is_deep_and_equal() {
    let value = Value::Compound(vec![
        field("a", Value::Bytes(vec![1, 2, 3])),
        field("b", Value::Sequence(vec![Value::Str("x".to_string()), Value::Str("y".to_string())])),
        field("c", Value::Compound(vec![field("d", Value::U64(9))])),
    ]);
    let copy = value.clone();
    assert_eq!(copy, value);
    assert_eq!(to_vec(&copy).unwrap(), to_vec(&value).unwrap());
    let f = field("n", Value::U8(1));
    assert_eq!(f.clone(), f);
}

#[test]
fn raw_names_and_texts_are_read_as_they_stand() {
    let bytes = document(&[0x08, 2, 0, 0xC0, 0x80, b'h', 0xC0, 0x80, 0x00, 0xFF, 0xFE]);
    let mut d = Deserializer::new(&bytes).unwrap();
    assert_eq!(d.deserialize_raw_identifier().unwrap(), Some((Tag::Str, vec![0xC0, 0x80])));
    assert_eq!(d.deserialize_raw_str().unwrap(), [b'h', 0xC0, 0x80]);
    assert_eq!(d.deserialize_raw_identifier().unwrap(), None);
    // Bytes that are no text at all are still its wire bytes.
    assert_eq!(d.deserialize_raw_str().unwrap(), [0xFF, 0xFE]);
    assert_eq!(d.deserialize_raw_str().unwrap(), []);
    assert!(matches!(d.deserialize_raw_identifier(), Err(Error::Eof)));
}

#[test]
fn elements_are_read_by_count() {
    let bytes = document(&[1, 0, 2, 0, 3, 0, 9]);
    let mut d = Deserializer::new(&bytes).unwrap();
    assert_eq!(
        d.deserialize_elements(Tag::U16, 3).unwrap(),
        vec![Value::U16(1), Value::U16(2), Value::U16(3)]
    );
    assert_eq!(d.deserialize_elements(Tag::U64, 0).unwrap(), Vec::new());
    assert!(matches!(d.deserialize_elements(Tag::U16, 1), Err(Error::Eof)));
    assert!(matches!(d.deserialize_elements(Tag::End, 1), Err(Error::UnrecognizedTag(0))));
}

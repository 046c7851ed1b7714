use shadenbt::transcode::{decode_text, encode_text};
use shadenbt::{to_vec, Error, Field, Value};

const HEADER: [u8; 7] = [0xAD, 0x4E, 0x42, 0x54, 0x00, 0x04, 0x80];

fn field(name: &str, value: Value) -> Field {
    Field { name: name.to_string(), value }
}

fn document(payload: &[u8]) -> Vec<u8> {
    let mut bytes = HEADER.to_vec();
    bytes.extend_from_slice(payload);
    bytes
}

#[test]
fn empty_compound_ser() {
    let result = to_vec(&Value::Compound(Vec::new()));
    assert_eq!(result.unwrap(), [0xAD, 0x4E, 0x42, 0x54, 0x00, 0x04, 0x80, 0x00]);
}

#[test]
fn named_u8_field() {
    let value = Value::Compound(vec![field("x", Value::U8(5))]);
    assert_eq!(to_vec(&value).unwrap(), document(&[0x01, 0x01, 0x00, b'x', 0x05, 0x00]));
}

#[test]
fn sequence_field_is_framed_once() {
    let items = vec![Value::U32(1), Value::U32(2), Value::U32(3)];
    let value = Value::Compound(vec![field("s", Value::Sequence(items))]);
    assert_eq!(
        to_vec(&value).unwrap(),
        document(&[
            0x09, 0x01, 0x00, b's', // the sequence, as a field
            0x03, 0x03, 0x00, 0x00, 0x00, // element tag and count
            0x01, 0x00, 0x00, 0x00, 0x02, 0x00, 0x00, 0x00, 0x03, 0x00, 0x00, 0x00, 0x00,
        ])
    );
}

#[test]
fn root_sequence_has_no_tag_of_its_own() {
    let items = vec![Value::U32(1), Value::U32(2), Value::U32(3)];
    assert_eq!(
        to_vec(&Value::Sequence(items)).unwrap(),
        document(&[
            0x03, 0x03, 0x00, 0x00, 0x00, 0x01, 0x00, 0x00, 0x00, 0x02, 0x00, 0x00, 0x00, 0x03,
            0x00, 0x00, 0x00,
        ])
    );
}

#[test]
fn root_scalars_are_bare_little_endian() {
    assert_eq!(to_vec(&Value::U8(0xAB)).unwrap(), document(&[0xAB]));
    assert_eq!(to_vec(&Value::U16(0x1234)).unwrap(), document(&[0x34, 0x12]));
    assert_eq!(to_vec(&Value::U32(0x1234_5678)).unwrap(), document(&[0x78, 0x56, 0x34, 0x12]));
    assert_eq!(
        to_vec(&Value::U64(0x0102_0304_0506_0708)).unwrap(),
        document(&[0x08, 0x07, 0x06, 0x05, 0x04, 0x03, 0x02, 0x01])
    );
    assert_eq!(to_vec(&Value::U64(u64::MAX)).unwrap(), document(&[0xFF; 8]));
}

#[test]
fn floats_travel_as_their_bits() {
    let value = Value::Compound(vec![
        field("f", Value::F32(1.5f32.to_bits())),
        field("d", Value::F64((-2.0f64).to_bits())),
    ]);
    let mut expected = vec![0x05, 0x01, 0x00, b'f'];
    expected.extend_from_slice(&1.5f32.to_le_bytes());
    expected.extend_from_slice(&[0x06, 0x01, 0x00, b'd']);
    expected.extend_from_slice(&(-2.0f64).to_le_bytes());
    expected.push(0x00);
    assert_eq!(to_vec(&value).unwrap(), document(&expected));
}

#[test]
fn every_kind_has_its_tag() {
    let value = Value::Compound(vec![
        field("a", Value::U8(1)),
        field("b", Value::U16(2)),
        field("c", Value::U32(3)),
        field("d", Value::U64(4)),
        field("e", Value::F32(5)),
        field("f", Value::F64(6)),
        field("g", Value::Bytes(vec![7, 8])),
        field("h", Value::Str("hi".to_string())),
        field("i", Value::Sequence(vec![Value::U8(9)])),
        field("j", Value::Compound(Vec::new())),
    ]);
    let expected: Vec<u8> = vec![
        0x01, 1, 0, b'a', 1, //
        0x02, 1, 0, b'b', 2, 0, //
        0x03, 1, 0, b'c', 3, 0, 0, 0, //
        0x04, 1, 0, b'd', 4, 0, 0, 0, 0, 0, 0, 0, //
        0x05, 1, 0, b'e', 5, 0, 0, 0, //
        0x06, 1, 0, b'f', 6, 0, 0, 0, 0, 0, 0, 0, //
        0x07, 1, 0, b'g', 7, 8, //
        0x08, 1, 0, b'h', b'h', b'i', //
        0x09, 1, 0, b'i', 0x01, 1, 0, 0, 0, 9, //
        0x0a, 1, 0, b'j', 0x00, //
        0x00,
    ];
    assert_eq!(to_vec(&value).unwrap(), document(&expected));
}

#[test]
fn text_is_transcoded_to_modified_utf8() {
    // NUL becomes C0 80, a character beyond the basic plane a surrogate pair.
    assert_eq!(
        to_vec(&Value::Str("a\0b".to_string())).unwrap(),
        document(&[b'a', 0xC0, 0x80, b'b'])
    );
    assert_eq!(
        to_vec(&Value::Str("\u{1F600}".to_string())).unwrap(),
        document(&[0xED, 0xA0, 0xBD, 0xED, 0xB8, 0x80])
    );
    assert_eq!(to_vec(&Value::Str("é€".to_string())).unwrap(), document("é€".as_bytes()));
}

#[test]
fn name_length_counts_wire_bytes() {
    let value = Value::Compound(vec![field("\0", Value::U8(1))]);
    assert_eq!(to_vec(&value).unwrap(), document(&[0x01, 0x02, 0x00, 0xC0, 0x80, 0x01, 0x00]));
}

#[test]
fn nested_sequences_carry_their_own_counts() {
    let value = Value::Compound(vec![field(
        "n",
        Value::Sequence(vec![
            Value::Sequence(vec![Value::U8(1), Value::U8(2)]),
            Value::Sequence(vec![Value::U16(3)]),
        ]),
    )]);
    let expected: Vec<u8> = vec![
        0x09, 1, 0, b'n', //
        0x09, 2, 0, 0, 0, // the outer elements are sequences, two of them
        0x01, 2, 0, 0, 0, 1, 2, // first inner sequence
        0x02, 1, 0, 0, 0, 3, 0, // second inner sequence
        0x00,
    ];
    assert_eq!(to_vec(&value).unwrap(), document(&expected));
}

#[test]
fn sequence_of_compounds() {
    let value = Value::Sequence(vec![
        Value::Compound(vec![field("a", Value::U8(1))]),
        Value::Compound(Vec::new()),
    ]);
    let expected: Vec<u8> = vec![0x0a, 2, 0, 0, 0, 0x01, 1, 0, b'a', 1, 0x00, 0x00];
    assert_eq!(to_vec(&value).unwrap(), document(&expected));
}

#[test]
fn empty_sequence_writes_no_element_tag() {
    let value = Value::Compound(vec![field("e", Value::Sequence(Vec::new()))]);
    assert_eq!(to_vec(&value).unwrap(), document(&[0x09, 1, 0, b'e', 0x00]));
}

#[test]
fn name_of_65535_bytes_fits() {
    let name = "n".repeat(65535);
    let value = Value::Compound(vec![field(&name, Value::U8(7))]);
    let bytes = to_vec(&value).unwrap();
    assert_eq!(bytes.len(), 7 + 1 + 2 + 65535 + 1 + 1);
    assert_eq!(&bytes[7..10], &[0x01, 0xFF, 0xFF]);
    assert_eq!(&bytes[bytes.len() - 2..], &[7, 0]);
}

#[test]
fn oversized_name_is_a_length_overflow() {
    let name = "n".repeat(65536);
    let value = Value::Compound(vec![field(&name, Value::U8(7))]);
    assert!(matches!(to_vec(&value), Err(Error::StrLen(65536))));
}

#[test]
fn oversized_name_after_good_fields_still_fails() {
    let name = "n".repeat(70000);
    let value = Value::Compound(vec![
        field("ok", Value::U8(1)),
        field(&name, Value::Sequence(vec![Value::U8(1)])),
    ]);
    assert!(matches!(to_vec(&value), Err(Error::StrLen(70000))));
}

#[test]
fn name_that_grows_past_the_limit_on_the_wire_fails() {
    // 32768 NULs are 65536 bytes of modified UTF-8.
    let name = "\0".repeat(32768);
    let value = Value::Compound(vec![field(&name, Value::U8(7))]);
    assert!(matches!(to_vec(&value), Err(Error::StrLen(65536))));
}

#[test]
fn text_to_wire_bytes_and_back() {
    assert_eq!(encode_text("plain").unwrap(), b"plain");
    assert_eq!(encode_text("").unwrap(), b"");
    assert_eq!(encode_text("\0").unwrap(), [0xC0, 0x80]);
    assert_eq!(encode_text("\u{10000}").unwrap(), [0xED, 0xA0, 0x80, 0xED, 0xB0, 0x80]);
    assert_eq!(decode_text(b"plain").unwrap(), "plain");
    assert_eq!(decode_text(&[0xC0, 0x80]).unwrap(), "\0");
    assert_eq!(decode_text(&[0xED, 0xA0, 0x80, 0xED, 0xB0, 0x80]).unwrap(), "\u{10000}");
    assert!(decode_text(&[0xE2, 0x82]).is_err());
    assert!(decode_text(&[0xFF]).is_err());
}

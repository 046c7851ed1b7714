//! What holds of the format as a whole: reading undoes writing, a wrong
//! header is always refused, an oversized name always fails, a document cut
//! short is reported as such.

use vstd::prelude::*;
use crate::error::Fault;
use crate::tag::Tag;
use crate::transcode::{text_of_wire, wire_text};
use crate::value::Tree;
use crate::wire::{
    bits16, bits32, bits64, bits8, chain, document, element_obligation, elements_encoding,
    encoding, fields_encoding, frame, from_le16, from_le32, from_le64, head, header, le16, le32,
    le64, lemma_text_len, magic, parse_document, parse_elements, parse_field_header,
    parse_fields, parse_header, parse_payload, parse_sequence_header, parse_text, signed16,
    signed32, signed64, signed8, text_len, Obligation, MAX_NAME_LEN, MAX_SEQ_LEN,
};

verus! {

/// Header rejection: a document whose first six bytes are not the magic
/// number and version is refused as such, whatever follows and whatever root
/// is asked for.
pub proof fn lemma_wrong_header_is_rejected(input: Seq<u8>, tag: Tag)
    requires
        input.len() >= 6,
        input.take(6) != magic(),
    ensures
        parse_header(input) == Err::<(u8, Seq<u8>), Fault>(Fault::InvalidHeader),
        parse_document(tag, input) == Err::<Tree, Fault>(Fault::InvalidHeader),
{
}

/// Truncated input: a header with any flags, followed by the tag of a field
/// and nothing more, is an unexpected end of input.
pub proof fn lemma_tag_without_payload_is_truncated(flags: u8, tag: Tag)
    requires
        tag != Tag::End,
    ensures
        parse_document(Tag::Compound, magic().push(flags).push(tag.spec_code())) == Err::<
            Tree,
            Fault,
        >(Fault::Eof),
{
    let input = magic().push(flags).push(tag.spec_code());
    assert(input.take(6) =~= magic());
    let rest = input.skip(7);
    assert(rest =~= seq![tag.spec_code()]);
    assert(Tag::spec_from_code(tag.spec_code()) == Some(tag));
    assert(parse_field_header(rest) == Err::<(Option<(Tag, Seq<char>)>, Seq<u8>), Fault>(
        Fault::Eof,
    ));
}

/// Oversized name: a value announced under a name of more than 65535 bytes
/// is never written. The fault is the length overflow, unless the value
/// itself is refused before its name is looked at: a text that cannot be
/// transcoded, a sequence that is too long.
pub proof fn lemma_oversized_name_fails(tree: Tree, name: Seq<u8>)
    requires
        name.len() > MAX_NAME_LEN,
    ensures
        frame(Obligation::Named(name), tree.tag().spec_code()) == Err::<Seq<u8>, Fault>(
            Fault::StrLen(name.len()),
        ),
        encoding(tree, Obligation::Named(name)) == Err::<Seq<u8>, Fault>(
            match tree {
                Tree::Str(text) if wire_text(text) is None => Fault::Transcode,
                Tree::Sequence(items) if items.len() > MAX_SEQ_LEN => Fault::SeqLen(items.len()),
                _ => Fault::StrLen(name.len()),
            },
        ),
{
}

/// A fault that writing a value under a pending obligation can report: a
/// name or a sequence that is too long, a text that cannot be transcoded.
pub open spec fn fault_of_writing(fault: Fault) -> bool {
    fault is StrLen || fault is SeqLen || fault is Transcode
}

/// The encoder never finds itself without an obligation: the faults of
/// encoding a value under a pending obligation are those of the value, a
/// name or a sequence that is too long, a text that cannot be transcoded.
pub proof fn lemma_faults_of_encoding(tree: Tree, pending: Obligation)
    requires
        pending != Obligation::Unset,
    ensures
        encoding(tree, pending) matches Err(fault) ==> fault_of_writing(fault),
    decreases tree, 0nat,
{
    match tree {
        Tree::Sequence(items) => {
            lemma_faults_of_elements(items, 0);
        },
        Tree::Compound(fields) => {
            lemma_faults_of_fields(fields, 0);
        },
        _ => {},
    }
}

/// The faults of the elements of a sequence are those of the elements.
proof fn lemma_faults_of_elements(items: Seq<Tree>, from: nat)
    ensures
        elements_encoding(items, from) matches Err(fault) ==> fault_of_writing(fault),
    decreases items, items.len() - from,
{
    if from < items.len() {
        lemma_faults_of_encoding(items[from as int], element_obligation(from, items.len()));
        lemma_faults_of_elements(items, from + 1);
    }
}

/// The faults of the fields of a compound are those of the fields.
proof fn lemma_faults_of_fields(fields: Seq<(Seq<char>, Tree)>, from: nat)
    ensures
        fields_encoding(fields, from) matches Err(fault) ==> fault_of_writing(fault),
    decreases fields, fields.len() - from,
{
    if from < fields.len() {
        if let Some(name) = wire_text(fields[from as int].0) {
            lemma_faults_of_encoding(fields[from as int].1, Obligation::Named(name));
        }
        lemma_faults_of_fields(fields, from + 1);
    }
}

/// Two little-endian bytes are read back as the number written.
pub proof fn lemma_le16_round_trip(x: u16, after: Seq<u8>)
    ensures
        from_le16(le16(x) + after) == x,
        (le16(x) + after).skip(2) == after,
        (le16(x) + after).len() == 2 + after.len(),
{
    assert((le16(x) + after).skip(2) =~= after);
}

/// Four little-endian bytes are read back as the number written.
pub proof fn lemma_le32_round_trip(x: u32, after: Seq<u8>)
    ensures
        from_le32(le32(x) + after) == x,
        (le32(x) + after).skip(4) == after,
        (le32(x) + after).len() == 4 + after.len(),
{
    assert((le32(x) + after).skip(4) =~= after);
}

/// Eight little-endian bytes are read back as the number written.
pub proof fn lemma_le64_round_trip(x: u64, after: Seq<u8>)
    ensures
        from_le64(le64(x) + after) == x,
        (le64(x) + after).skip(8) == after,
        (le64(x) + after).len() == 8 + after.len(),
{
    let low = (x % 0x1_0000_0000) as u32;
    let high = (x / 0x1_0000_0000) as u32;
    lemma_le32_round_trip(low, le32(high) + after);
    lemma_le32_round_trip(high, after);
    assert(le64(x) + after =~= le32(low) + (le32(high) + after));
    assert((le64(x) + after).skip(8) =~= after);
}

/// A signed integer is found again from the unsigned integer with its bits.
pub proof fn lemma_signed_round_trip(a: i8, b: i16, c: i32, d: i64)
    ensures
        signed8(bits8(a)) == a,
        signed16(bits16(b)) == b,
        signed32(bits32(c)) == c,
        signed64(bits64(d)) == d,
{
}

/// The transcoder takes `text` to wire bytes without a zero byte and takes
/// those bytes back to `text`.
pub open spec fn text_round_trips(text: Seq<char>) -> bool {
    wire_text(text) matches Some(bytes) && text_of_wire(bytes) == Some(text) && forall|i: int|
        0 <= i < bytes.len() ==> bytes[i] != 0
}

/// The transcoder takes `name` to wire bytes that fit the length field and
/// takes those bytes back to `name`.
pub open spec fn name_round_trips(name: Seq<char>) -> bool {
    wire_text(name) matches Some(bytes) && text_of_wire(bytes) == Some(name) && bytes.len()
        <= MAX_NAME_LEN
}

/// `tree`, written where `after` follows it, can be told apart from what
/// follows: the wire gives texts and blobs no length, so a text must be
/// followed by a zero byte or by nothing, and a blob by nothing. The
/// elements of a sequence must share one tag, and there must be at least one
/// to carry it, and no more than the count can hold. Every text and name must
/// survive transcoding.
pub open spec fn delimited(tree: Tree, after: Seq<u8>) -> bool
    decreases tree, 0nat,
{
    match tree {
        Tree::Bytes(_) => after.len() == 0,
        Tree::Str(text) => text_round_trips(text) && (after.len() == 0 || after[0] == 0),
        Tree::Sequence(items) => 0 < items.len() <= MAX_SEQ_LEN && elements_delimited(
            items,
            0,
            after,
        ),
        Tree::Compound(fields) => fields_delimited(fields, 0, after),
        _ => true,
    }
}

/// The elements of `items` from `from` on are delimited, each by the
/// elements behind it and then `after`, and carry the tag of the first.
pub open spec fn elements_delimited(items: Seq<Tree>, from: nat, after: Seq<u8>) -> bool
    decreases items, items.len() - from,
{
    if from >= items.len() {
        true
    } else {
        &&& items[from as int].tag() == items[0].tag()
        &&& elements_encoding(items, from + 1) matches Ok(more) && delimited(
            items[from as int],
            more + after,
        )
        &&& elements_delimited(items, from + 1, after)
    }
}

/// The fields of `fields` from `from` on are delimited, each by the fields
/// behind it, the terminator and then `after`, and their names survive
/// transcoding.
pub open spec fn fields_delimited(fields: Seq<(Seq<char>, Tree)>, from: nat, after: Seq<u8>) -> bool
    decreases fields, fields.len() - from,
{
    if from >= fields.len() {
        true
    } else {
        &&& name_round_trips(fields[from as int].0)
        &&& fields_encoding(fields, from + 1) matches Ok(more) && delimited(
            fields[from as int].1,
            more + seq![0u8] + after,
        )
        &&& fields_delimited(fields, from + 1, after)
    }
}

/// The bytes of a value under an obligation are what the obligation asks
/// for, followed by the bytes of the value alone.
pub proof fn lemma_encoding_under(tree: Tree, pending: Obligation)
    requires
        encoding(tree, Obligation::InSeq(None)) is Ok,
    ensures
        encoding(tree, pending) == chain(
            head(pending, tree.tag()),
            encoding(tree, Obligation::InSeq(None)),
        ),
{
    let none = Seq::<u8>::empty();
    assert(none + none =~= none);
    match tree {
        Tree::Sequence(items) => {
            let inner = elements_encoding(items, 0);
            assert(none + inner->Ok_0 =~= inner->Ok_0);
        },
        Tree::Compound(fields) => {
            let inner = chain(fields_encoding(fields, 0), Ok(seq![0u8]));
            assert(none + inner->Ok_0 =~= inner->Ok_0);
        },
        Tree::U8(v) => {
            assert(none + seq![v] =~= seq![v]);
        },
        Tree::U16(v) => {
            assert(none + le16(v) =~= le16(v));
        },
        Tree::U32(v) => {
            assert(none + le32(v) =~= le32(v));
        },
        Tree::U64(v) => {
            assert(none + le64(v) =~= le64(v));
        },
        Tree::F32(v) => {
            assert(none + le32(v) =~= le32(v));
        },
        Tree::F64(v) => {
            assert(none + le64(v) =~= le64(v));
        },
        Tree::Bytes(bytes) => {
            assert(none + bytes =~= bytes);
        },
        Tree::Str(text) => {
            let bytes = wire_text(text)->Some_0;
            assert(none + bytes =~= bytes);
        },
    }
}

/// Round trip of an 8-bit number.
proof fn lemma_u8_round_trip(v: u8, after: Seq<u8>)
    ensures
        encoding(Tree::U8(v), Obligation::InSeq(None)) matches Ok(bytes) && parse_payload(
            Tag::U8,
            bytes + after,
        ) == Ok::<(Tree, Seq<u8>), Fault>((Tree::U8(v), after)),
{
    let none = Seq::<u8>::empty();
    assert(none + none =~= none);
    assert(((none + seq![v]) + after).skip(1) =~= after);
}

/// Round trip of a 16-bit number.
proof fn lemma_u16_round_trip(v: u16, after: Seq<u8>)
    ensures
        encoding(Tree::U16(v), Obligation::InSeq(None)) matches Ok(bytes) && parse_payload(
            Tag::U16,
            bytes + after,
        ) == Ok::<(Tree, Seq<u8>), Fault>((Tree::U16(v), after)),
{
    let none = Seq::<u8>::empty();
    assert(none + none =~= none);
    lemma_le16_round_trip(v, after);
    assert(none + le16(v) =~= le16(v));
}

/// Round trip of a 32-bit number.
proof fn lemma_u32_round_trip(v: u32, after: Seq<u8>)
    ensures
        encoding(Tree::U32(v), Obligation::InSeq(None)) matches Ok(bytes) && parse_payload(
            Tag::U32,
            bytes + after,
        ) == Ok::<(Tree, Seq<u8>), Fault>((Tree::U32(v), after)),
{
    let none = Seq::<u8>::empty();
    assert(none + none =~= none);
    lemma_le32_round_trip(v, after);
    assert(none + le32(v) =~= le32(v));
}

/// Round trip of a 64-bit number.
proof fn lemma_u64_round_trip(v: u64, after: Seq<u8>)
    ensures
        encoding(Tree::U64(v), Obligation::InSeq(None)) matches Ok(bytes) && parse_payload(
            Tag::U64,
            bytes + after,
        ) == Ok::<(Tree, Seq<u8>), Fault>((Tree::U64(v), after)),
{
    let none = Seq::<u8>::empty();
    assert(none + none =~= none);
    lemma_le64_round_trip(v, after);
    assert(none + le64(v) =~= le64(v));
}

/// Round trip of the bits of a 32-bit float.
proof fn lemma_f32_round_trip(v: u32, after: Seq<u8>)
    ensures
        encoding(Tree::F32(v), Obligation::InSeq(None)) matches Ok(bytes) && parse_payload(
            Tag::F32,
            bytes + after,
        ) == Ok::<(Tree, Seq<u8>), Fault>((Tree::F32(v), after)),
{
    let none = Seq::<u8>::empty();
    assert(none + none =~= none);
    lemma_le32_round_trip(v, after);
    assert(none + le32(v) =~= le32(v));
}

/// Round trip of the bits of a 64-bit float.
proof fn lemma_f64_round_trip(v: u64, after: Seq<u8>)
    ensures
        encoding(Tree::F64(v), Obligation::InSeq(None)) matches Ok(bytes) && parse_payload(
            Tag::F64,
            bytes + after,
        ) == Ok::<(Tree, Seq<u8>), Fault>((Tree::F64(v), after)),
{
    let none = Seq::<u8>::empty();
    assert(none + none =~= none);
    lemma_le64_round_trip(v, after);
    assert(none + le64(v) =~= le64(v));
}

/// Round trip of a blob with nothing behind it.
proof fn lemma_blob_round_trip(blob: Seq<u8>)
    ensures
        encoding(Tree::Bytes(blob), Obligation::InSeq(None)) matches Ok(bytes) && parse_payload(
            Tag::Bytes,
            bytes + Seq::<u8>::empty(),
        ) == Ok::<(Tree, Seq<u8>), Fault>((Tree::Bytes(blob), Seq::<u8>::empty())),
{
    let none = Seq::<u8>::empty();
    assert(none + none =~= none);
    assert((none + blob) + none =~= blob);
}

/// Round trip of a text with a zero byte or nothing behind it.
proof fn lemma_text_round_trip(text: Seq<char>, after: Seq<u8>)
    requires
        text_round_trips(text),
        after.len() == 0 || after[0] == 0,
    ensures
        encoding(Tree::Str(text), Obligation::InSeq(None)) matches Ok(bytes) && parse_payload(
            Tag::Str,
            bytes + after,
        ) == Ok::<(Tree, Seq<u8>), Fault>((Tree::Str(text), after)),
{
    let none = Seq::<u8>::empty();
    let bytes = wire_text(text)->Some_0;
    lemma_text_len(bytes + after, bytes.len());
    assert(none + none =~= none);
    assert(none + bytes =~= bytes);
    assert((bytes + after).take(bytes.len() as int) =~= bytes);
    assert((bytes + after).skip(bytes.len() as int) =~= after);
    assert(parse_text(bytes + after) == Ok::<(Seq<char>, Seq<u8>), Fault>((text, after)));
}

/// Round trip of one value: the bytes of a delimited value, followed by
/// `after`, are read back as that value, and `after` is left.
pub proof fn lemma_payload_round_trip(tree: Tree, after: Seq<u8>)
    requires
        delimited(tree, after),
    ensures
        encoding(tree, Obligation::InSeq(None)) matches Ok(bytes) && parse_payload(
            tree.tag(),
            bytes + after,
        ) == Ok::<(Tree, Seq<u8>), Fault>((tree, after)),
    decreases tree, 0nat,
{
    let none = Seq::<u8>::empty();
    match tree {
        Tree::Sequence(items) => {
            lemma_sequence_round_trip(items, after);
            let inner = elements_encoding(items, 0)->Ok_0;
            assert(none + none =~= none);
            assert(none + inner =~= inner);
        },
        Tree::Compound(fields) => {
            lemma_fields_round_trip(fields, 0, after);
            let inner = fields_encoding(fields, 0)->Ok_0;
            assert(none + none =~= none);
            assert((none + (inner + seq![0u8])) + after =~= inner + seq![0u8] + after);
            assert(fields.skip(0) =~= fields);
        },
        Tree::U8(v) => lemma_u8_round_trip(v, after),
        Tree::U16(v) => lemma_u16_round_trip(v, after),
        Tree::U32(v) => lemma_u32_round_trip(v, after),
        Tree::U64(v) => lemma_u64_round_trip(v, after),
        Tree::F32(v) => lemma_f32_round_trip(v, after),
        Tree::F64(v) => lemma_f64_round_trip(v, after),
        Tree::Bytes(blob) => {
            lemma_blob_round_trip(blob);
            assert(after =~= none);
        },
        Tree::Str(text) => lemma_text_round_trip(text, after),
    }
}

/// What opens a field is read back: the tag, and the name from its wire
/// bytes.
proof fn lemma_field_header_round_trip(
    tag: Tag,
    name: Seq<char>,
    wire_name: Seq<u8>,
    behind: Seq<u8>,
)
    requires
        tag != Tag::End,
        wire_name.len() <= MAX_NAME_LEN,
        text_of_wire(wire_name) == Some(name),
    ensures
        parse_field_header(
            ((seq![tag.spec_code()] + le16(wire_name.len() as u16)) + wire_name) + behind,
        ) == Ok::<(Option<(Tag, Seq<char>)>, Seq<u8>), Fault>((Some((tag, name)), behind)),
{
    let input = ((seq![tag.spec_code()] + le16(wire_name.len() as u16)) + wire_name) + behind;
    let tail = wire_name + behind;
    assert(input =~= seq![tag.spec_code()] + (le16(wire_name.len() as u16) + tail));
    assert(input[0] == tag.spec_code());
    assert(Tag::spec_from_code(tag.spec_code()) == Some(tag));
    assert(input.skip(1) =~= le16(wire_name.len() as u16) + tail);
    lemma_le16_round_trip(wire_name.len() as u16, tail);
    let n = wire_name.len() as int;
    assert(input.subrange(3, 3 + n) =~= wire_name);
    assert(input.skip(3 + n) =~= behind);
}

/// What opens a sequence is read back: the element tag and the count.
proof fn lemma_sequence_header_round_trip(tag: Tag, count: nat, behind: Seq<u8>)
    requires
        tag != Tag::End,
        count <= MAX_SEQ_LEN,
    ensures
        parse_sequence_header((seq![tag.spec_code()] + le32(count as u32)) + behind) == Ok::<
            ((Tag, nat), Seq<u8>),
            Fault,
        >(((tag, count), behind)),
{
    let input = (seq![tag.spec_code()] + le32(count as u32)) + behind;
    assert(input =~= seq![tag.spec_code()] + (le32(count as u32) + behind));
    assert(input[0] == tag.spec_code());
    assert(Tag::spec_from_code(tag.spec_code()) == Some(tag));
    assert(input.skip(1) =~= le32(count as u32) + behind);
    lemma_le32_round_trip(count as u32, behind);
    assert(input.skip(5) =~= behind);
}

/// Round trip of a sequence: its element tag, count and elements are read
/// back as the same elements.
#[verifier::spinoff_prover]
#[verifier::rlimit(30)]
proof fn lemma_sequence_round_trip(items: Seq<Tree>, after: Seq<u8>)
    requires
        0 < items.len() <= MAX_SEQ_LEN,
        elements_delimited(items, 0, after),
    ensures
        elements_encoding(items, 0) matches Ok(bytes) && parse_payload(
            Tag::Sequence,
            bytes + after,
        ) == Ok::<(Tree, Seq<u8>), Fault>((Tree::Sequence(items), after)),
    decreases items, items.len() + 1,
{
    let n = items.len();
    let first = items[0];
    let tag = first.tag();
    let more = elements_encoding(items, 1)->Ok_0;
    lemma_payload_round_trip(first, more + after);
    let alone = encoding(first, Obligation::InSeq(None))->Ok_0;
    let pending = Obligation::InSeq(Some(n as i32));
    lemma_encoding_under(first, pending);
    let opening = seq![tag.spec_code()] + le32(n as u32);
    assert(head(pending, tag) == Ok::<Seq<u8>, Fault>(opening + Seq::<u8>::empty()));
    let bytes = elements_encoding(items, 0)->Ok_0;
    assert(bytes == ((opening + Seq::<u8>::empty()) + alone) + more);
    let behind = alone + (more + after);
    assert(opening + Seq::<u8>::empty() =~= opening);
    lemma_regroup(opening, alone, more, after);
    lemma_sequence_header_round_trip(tag, n, behind);
    lemma_elements_round_trip(items, 1, after);
    assert(seq![first] + items.skip(1) =~= items);
    assert(parse_elements(tag, n, behind) == Ok::<(Seq<Tree>, Seq<u8>), Fault>((items, after)));
}

/// Round trip of the elements behind the first: they are read back one after
/// another.
#[verifier::spinoff_prover]
#[verifier::rlimit(30)]
proof fn lemma_elements_round_trip(items: Seq<Tree>, from: nat, after: Seq<u8>)
    requires
        1 <= from <= items.len(),
        elements_delimited(items, from, after),
    ensures
        elements_encoding(items, from) matches Ok(bytes) && parse_elements(
            items[0].tag(),
            (items.len() - from) as nat,
            bytes + after,
        ) == Ok::<(Seq<Tree>, Seq<u8>), Fault>((items.skip(from as int), after)),
    decreases items, items.len() - from,
{
    let tag = items[0].tag();
    if from == items.len() {
        assert(Seq::<u8>::empty() + after =~= after);
        assert(items.skip(from as int) =~= Seq::<Tree>::empty());
    } else {
        let item = items[from as int];
        let more = elements_encoding(items, from + 1)->Ok_0;
        lemma_payload_round_trip(item, more + after);
        let alone = encoding(item, Obligation::InSeq(None))->Ok_0;
        assert(element_obligation(from, items.len()) == Obligation::InSeq(None));
        let bytes = elements_encoding(items, from)->Ok_0;
        assert(bytes == alone + more);
        lemma_regroup(Seq::empty(), alone, more, after);
        lemma_elements_round_trip(items, from + 1, after);
        assert(seq![item] + items.skip((from + 1) as int) =~= items.skip(from as int));
    }
}

/// Bytes written piece by piece are read front to back.
proof fn lemma_regroup(front: Seq<u8>, payload: Seq<u8>, more: Seq<u8>, after: Seq<u8>)
    ensures
        ((front + payload) + more) + after == front + (payload + (more + after)),
        (payload + more) + after == payload + (more + after),
{
    assert(((front + payload) + more) + after =~= front + (payload + (more + after)));
    assert((payload + more) + after =~= payload + (more + after));
}

/// The bytes of a field and the fields behind it: the tag, the length of
/// the name, the name, the value, then the rest.
proof fn lemma_field_encoding(fields: Seq<(Seq<char>, Tree)>, from: nat)
    requires
        from < fields.len(),
        wire_text(fields[from as int].0) matches Some(name) && name.len() <= MAX_NAME_LEN,
        encoding(fields[from as int].1, Obligation::InSeq(None)) is Ok,
        fields_encoding(fields, from + 1) is Ok,
    ensures
        fields_encoding(fields, from) == Ok::<Seq<u8>, Fault>(
            (((seq![fields[from as int].1.tag().spec_code()] + le16(
                wire_text(fields[from as int].0)->Some_0.len() as u16,
            )) + wire_text(fields[from as int].0)->Some_0) + encoding(
                fields[from as int].1,
                Obligation::InSeq(None),
            )->Ok_0) + fields_encoding(fields, from + 1)->Ok_0,
        ),
{
    let value = fields[from as int].1;
    let name = wire_text(fields[from as int].0)->Some_0;
    lemma_encoding_under(value, Obligation::Named(name));
}

/// A field that is read, followed by fields that are read, is the first of
/// the fields read.
proof fn lemma_field_parse(
    input: Seq<u8>,
    tag: Tag,
    name: Seq<char>,
    value: Tree,
    rest: Seq<u8>,
    behind: Seq<u8>,
    more: Seq<(Seq<char>, Tree)>,
    after: Seq<u8>,
)
    requires
        parse_field_header(input) == Ok::<(Option<(Tag, Seq<char>)>, Seq<u8>), Fault>(
            (Some((tag, name)), rest),
        ),
        parse_payload(tag, rest) == Ok::<(Tree, Seq<u8>), Fault>((value, behind)),
        behind.len() <= rest.len(),
        parse_fields(behind) == Ok::<(Seq<(Seq<char>, Tree)>, Seq<u8>), Fault>((more, after)),
    ensures
        parse_fields(input) == Ok::<(Seq<(Seq<char>, Tree)>, Seq<u8>), Fault>(
            (seq![(name, value)] + more, after),
        ),
{
}

/// The terminator alone is read as the end of the fields.
proof fn lemma_terminator_round_trip(after: Seq<u8>)
    ensures
        parse_fields(Seq::<u8>::empty() + seq![0u8] + after) == Ok::<
            (Seq<(Seq<char>, Tree)>, Seq<u8>),
            Fault,
        >((Seq::empty(), after)),
{
    let input = Seq::<u8>::empty() + seq![0u8] + after;
    assert(input[0] == 0);
    assert(input.skip(1) =~= after);
    assert(parse_field_header(input) == Ok::<(Option<(Tag, Seq<char>)>, Seq<u8>), Fault>(
        (None, after),
    ));
}

/// Round trip of the fields of a compound with its terminator.
#[verifier::spinoff_prover]
#[verifier::rlimit(30)]
proof fn lemma_fields_round_trip(fields: Seq<(Seq<char>, Tree)>, from: nat, after: Seq<u8>)
    requires
        from <= fields.len(),
        fields_delimited(fields, from, after),
    ensures
        fields_encoding(fields, from) matches Ok(bytes) && parse_fields(
            bytes + seq![0u8] + after,
        ) == Ok::<(Seq<(Seq<char>, Tree)>, Seq<u8>), Fault>((fields.skip(from as int), after)),
    decreases fields, fields.len() - from,
{
    if from == fields.len() {
        lemma_terminator_round_trip(after);
        assert(fields.skip(from as int) =~= Seq::<(Seq<char>, Tree)>::empty());
    } else {
        let name = fields[from as int].0;
        let value = fields[from as int].1;
        let tag = value.tag();
        let wire_name = wire_text(name)->Some_0;
        let more = fields_encoding(fields, from + 1)->Ok_0;
        let behind = more + seq![0u8] + after;
        lemma_payload_round_trip(value, behind);
        let payload = encoding(value, Obligation::InSeq(None))->Ok_0;
        lemma_field_encoding(fields, from);
        let opening = seq![tag.spec_code()] + le16(wire_name.len() as u16);
        let bytes = fields_encoding(fields, from)->Ok_0;
        let input = bytes + seq![0u8] + after;
        assert(input == (opening + wire_name) + (payload + behind)) by {
            assert((((opening + wire_name) + payload) + more) + seq![0u8] + after =~= (opening
                + wire_name) + (payload + (more + seq![0u8] + after)));
        }
        lemma_field_header_round_trip(tag, name, wire_name, payload + behind);
        lemma_fields_round_trip(fields, from + 1, after);
        lemma_field_parse(
            input,
            tag,
            name,
            value,
            payload + behind,
            behind,
            fields.skip((from + 1) as int),
            after,
        );
        assert(seq![(name, value)] + fields.skip((from + 1) as int) =~= fields.skip(from as int));
    }
}

/// Round trip: a document written from a delimited tree is read back as
/// that tree, when the reader is told the tag of the root.
pub proof fn lemma_round_trip(tree: Tree)
    requires
        delimited(tree, Seq::empty()),
    ensures
        document(tree) matches Ok(bytes) && parse_document(tree.tag(), bytes) == Ok::<
            Tree,
            Fault,
        >(tree),
{
    lemma_payload_round_trip(tree, Seq::empty());
    lemma_encoding_under(tree, Obligation::Root);
    let payload = encoding(tree, Obligation::InSeq(None))->Ok_0;
    let none = Seq::<u8>::empty();
    assert(none + none =~= none);
    assert(none + payload =~= payload);
    assert(payload + none =~= payload);
    let bytes = header() + payload;
    assert(bytes.take(6) =~= magic());
    assert(bytes.skip(7) =~= payload);
}

/// The text at the start of `input` is no longer than `input`.
pub proof fn lemma_text_len_in_bounds(input: Seq<u8>)
    ensures
        text_len(input) <= input.len(),
    decreases input.len(),
{
    if input.len() > 0 && input[0] != 0 {
        lemma_text_len_in_bounds(input.skip(1));
    }
}

/// What is left after skipping is the end of the input.
proof fn lemma_skip_is_suffix(input: Seq<u8>, n: int)
    requires
        0 <= n <= input.len(),
    ensures
        input.skip(n).is_suffix_of(input),
{
    assert(input.skip(n) =~= input.subrange(input.len() - input.skip(n).len(), input.len() as int));
}

/// The end of an end is an end.
proof fn lemma_suffix_twice(a: Seq<u8>, b: Seq<u8>, c: Seq<u8>)
    requires
        a.is_suffix_of(b),
        b.is_suffix_of(c),
    ensures
        a.is_suffix_of(c),
{
    assert(a =~= c.subrange(c.len() - a.len(), c.len() as int));
}

/// Reading never makes up input: what a successful parse leaves is the end
/// of what it was given. So the branches of the parse functions that ask
/// whether the rest has grown are never taken.
pub proof fn lemma_parse_leaves_suffix(tag: Tag, input: Seq<u8>)
    ensures
        parse_payload(tag, input) matches Ok((_, rest)) ==> rest.is_suffix_of(input),
    decreases input.len(), 1nat, 0nat,
{
    match tag {
        Tag::End => {},
        Tag::U8 => {
            if input.len() >= 1 {
                lemma_skip_is_suffix(input, 1);
            }
        },
        Tag::U16 => {
            if input.len() >= 2 {
                lemma_skip_is_suffix(input, 2);
            }
        },
        Tag::U32 | Tag::F32 => {
            if input.len() >= 4 {
                lemma_skip_is_suffix(input, 4);
            }
        },
        Tag::U64 | Tag::F64 => {
            if input.len() >= 8 {
                lemma_skip_is_suffix(input, 8);
            }
        },
        Tag::Bytes => {
            lemma_skip_is_suffix(input, input.len() as int);
            assert(input.skip(input.len() as int) =~= Seq::<u8>::empty());
        },
        Tag::Str => {
            lemma_text_len_in_bounds(input);
            lemma_skip_is_suffix(input, text_len(input) as int);
        },
        Tag::Sequence => {
            if let Ok(((element, count), rest)) = parse_sequence_header(input) {
                lemma_skip_is_suffix(input, 5);
                lemma_elements_leave_suffix(element, count, rest);
                if let Ok((_, rest2)) = parse_elements(element, count, rest) {
                    lemma_suffix_twice(rest2, rest, input);
                }
            }
        },
        Tag::Compound => {
            lemma_fields_leave_suffix(input);
        },
    }
}

/// What the elements of a sequence leave is the end of what they were given.
pub proof fn lemma_elements_leave_suffix(tag: Tag, count: nat, input: Seq<u8>)
    ensures
        parse_elements(tag, count, input) matches Ok((_, rest)) ==> rest.is_suffix_of(input),
    decreases input.len(), 2nat, count,
{
    if count == 0 {
        lemma_skip_is_suffix(input, 0);
        assert(input.skip(0) =~= input);
    } else {
        lemma_parse_leaves_suffix(tag, input);
        if let Ok((_, rest)) = parse_payload(tag, input) {
            lemma_elements_leave_suffix(tag, (count - 1) as nat, rest);
            if let Ok((_, rest2)) = parse_elements(tag, (count - 1) as nat, rest) {
                lemma_suffix_twice(rest2, rest, input);
            }
        }
    }
}

/// What the fields of a compound leave is the end of what they were given.
pub proof fn lemma_fields_leave_suffix(input: Seq<u8>)
    ensures
        parse_fields(input) matches Ok((_, rest)) ==> rest.is_suffix_of(input),
    decreases input.len(), 0nat, 0nat,
{
    match parse_field_header(input) {
        Err(_) => {},
        Ok((None, rest)) => {
            lemma_skip_is_suffix(input, 1);
        },
        Ok((Some((tag, _)), rest)) => {
            let n = from_le16(input.skip(1)) as int;
            lemma_skip_is_suffix(input, 3 + n);
            lemma_parse_leaves_suffix(tag, rest);
            if let Ok((_, rest2)) = parse_payload(tag, rest) {
                lemma_suffix_twice(rest2, rest, input);
                lemma_fields_leave_suffix(rest2);
                if let Ok((_, rest3)) = parse_fields(rest2) {
                    lemma_suffix_twice(rest3, rest2, input);
                }
            }
        },
    }
}

/// A fault that reading can report: a wrong header, an input cut short, a
/// tag or a count out of range, a text that cannot be transcoded.
pub open spec fn fault_of_reading(fault: Fault) -> bool {
    fault is InvalidHeader || fault is Eof || fault is UnrecognizedTag || fault is SeqLen
        || fault is Transcode
}

/// The faults of reading a document are the faults of reading.
pub proof fn lemma_faults_of_parsing(tag: Tag, input: Seq<u8>)
    ensures
        parse_document(tag, input) matches Err(fault) ==> fault_of_reading(fault),
{
    if let Ok((_, rest)) = parse_header(input) {
        lemma_faults_of_payload(tag, rest);
    }
}

/// The faults of reading a value are the faults of reading.
pub proof fn lemma_faults_of_payload(tag: Tag, input: Seq<u8>)
    ensures
        parse_payload(tag, input) matches Err(fault) ==> fault_of_reading(fault),
    decreases input.len(), 1nat, 0nat,
{
    match tag {
        Tag::Sequence => {
            if let Ok(((element, count), rest)) = parse_sequence_header(input) {
                lemma_faults_of_parsed_elements(element, count, rest);
            }
        },
        Tag::Compound => {
            lemma_faults_of_parsed_fields(input);
        },
        _ => {},
    }
}

/// The faults of reading the elements of a sequence are the faults of
/// reading.
proof fn lemma_faults_of_parsed_elements(tag: Tag, count: nat, input: Seq<u8>)
    ensures
        parse_elements(tag, count, input) matches Err(fault) ==> fault_of_reading(fault),
    decreases input.len(), 2nat, count,
{
    if count > 0 {
        lemma_faults_of_payload(tag, input);
        if let Ok((_, rest)) = parse_payload(tag, input) {
            if rest.len() <= input.len() {
                lemma_faults_of_parsed_elements(tag, (count - 1) as nat, rest);
            }
        }
    }
}

/// The faults of reading the fields of a compound are the faults of reading.
proof fn lemma_faults_of_parsed_fields(input: Seq<u8>)
    ensures
        parse_fields(input) matches Err(fault) ==> fault_of_reading(fault),
    decreases input.len(), 0nat, 0nat,
{
    if let Ok((Some((tag, _)), rest)) = parse_field_header(input) {
        lemma_faults_of_payload(tag, rest);
        if let Ok((_, rest2)) = parse_payload(tag, rest) {
            if rest2.len() <= rest.len() {
                lemma_faults_of_parsed_fields(rest2);
            }
        }
    }
}

} // verus!

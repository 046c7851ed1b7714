//! Value trees, in memory and as the mathematical trees that contracts speak of.

use vstd::prelude::*;
use vstd::slice::slice_to_vec;
use crate::tag::Tag;

verus! {

/// A value tree. Signed integers are held as the unsigned integer with the
/// same bits, booleans as the byte 0 or 1, and floating-point numbers as
/// their IEEE 754 bit pattern.
#[derive(Debug, PartialEq, Eq)]
pub enum Value {
    /// An 8-bit integer, or a boolean.
    U8(u8),
    /// A 16-bit integer.
    U16(u16),
    /// A 32-bit integer.
    U32(u32),
    /// A 64-bit integer.
    U64(u64),
    /// The bits of a 32-bit float.
    F32(u32),
    /// The bits of a 64-bit float.
    F64(u64),
    /// A blob of raw bytes. The wire gives it no length.
    Bytes(Vec<u8>),
    /// A text. The wire gives it no length either.
    Str(String),
    /// An ordered run of values of one kind.
    Sequence(Vec<Value>),
    /// An ordered run of named values of any kind.
    Compound(Vec<Field>),
}

/// A named member of a compound.
#[derive(Debug, PartialEq, Eq)]
pub struct Field {
    pub name: String,
    pub value: Value,
}

/// The mathematical form of a [`Value`].
pub enum Tree {
    U8(u8),
    U16(u16),
    U32(u32),
    U64(u64),
    F32(u32),
    F64(u64),
    Bytes(Seq<u8>),
    Str(Seq<char>),
    Sequence(Seq<Tree>),
    Compound(Seq<(Seq<char>, Tree)>),
}

/// The tree of a value.
pub open spec fn tree_of(value: Value) -> Tree
    decreases value, 0nat,
{
    match value {
        Value::U8(v) => Tree::U8(v),
        Value::U16(v) => Tree::U16(v),
        Value::U32(v) => Tree::U32(v),
        Value::U64(v) => Tree::U64(v),
        Value::F32(bits) => Tree::F32(bits),
        Value::F64(bits) => Tree::F64(bits),
        Value::Bytes(bytes) => Tree::Bytes(bytes@),
        Value::Str(text) => Tree::Str(text@),
        Value::Sequence(items) => Tree::Sequence(item_trees(items@)),
        Value::Compound(fields) => Tree::Compound(field_trees(fields@)),
    }
}

/// The trees of a run of values, in order.
pub open spec fn item_trees(items: Seq<Value>) -> Seq<Tree>
    decreases items, items.len(),
{
    if items.len() == 0 {
        Seq::empty()
    } else {
        item_trees(items.drop_last()).push(tree_of(items.last()))
    }
}

/// The names and trees of a run of fields, in order.
pub open spec fn field_trees(fields: Seq<Field>) -> Seq<(Seq<char>, Tree)>
    decreases fields, fields.len(),
{
    if fields.len() == 0 {
        Seq::empty()
    } else {
        field_trees(fields.drop_last()).push((fields.last().name@, tree_of(fields.last().value)))
    }
}

impl View for Value {
    type V = Tree;

    open spec fn view(&self) -> Tree {
        tree_of(*self)
    }
}

/// `item_trees` keeps the length and maps each value to its tree.
pub proof fn lemma_item_trees(items: Seq<Value>)
    ensures
        item_trees(items).len() == items.len(),
        forall|i: int| 0 <= i < items.len() ==> #[trigger] item_trees(items)[i] == items[i]@,
    decreases items.len(),
{
    if items.len() > 0 {
        lemma_item_trees(items.drop_last());
    }
}

/// `field_trees` keeps the length and maps each field to its name and tree.
pub proof fn lemma_field_trees(fields: Seq<Field>)
    ensures
        field_trees(fields).len() == fields.len(),
        forall|i: int|
            0 <= i < fields.len() ==> #[trigger] field_trees(fields)[i] == (
                fields[i].name@,
                fields[i].value@,
            ),
    decreases fields.len(),
{
    if fields.len() > 0 {
        lemma_field_trees(fields.drop_last());
    }
}

impl Tree {
    /// The tag under which this value travels.
    pub open spec fn tag(self) -> Tag {
        match self {
            Tree::U8(_) => Tag::U8,
            Tree::U16(_) => Tag::U16,
            Tree::U32(_) => Tag::U32,
            Tree::U64(_) => Tag::U64,
            Tree::F32(_) => Tag::F32,
            Tree::F64(_) => Tag::F64,
            Tree::Bytes(_) => Tag::Bytes,
            Tree::Str(_) => Tag::Str,
            Tree::Sequence(_) => Tag::Sequence,
            Tree::Compound(_) => Tag::Compound,
        }
    }
}

impl Value {
    /// The tag under which this value travels.
    pub fn tag(&self) -> (tag: Tag)
        ensures
            tag == self@.tag(),
    {
        match self {
            Value::U8(_) => Tag::U8,
            Value::U16(_) => Tag::U16,
            Value::U32(_) => Tag::U32,
            Value::U64(_) => Tag::U64,
            Value::F32(_) => Tag::F32,
            Value::F64(_) => Tag::F64,
            Value::Bytes(_) => Tag::Bytes,
            Value::Str(_) => Tag::Str,
            Value::Sequence(_) => Tag::Sequence,
            Value::Compound(_) => Tag::Compound,
        }
    }
}

impl Value {
    /// A deep copy: a value with the same tree.
    fn copy(&self) -> (copy: Self)
        ensures
            copy@ == self@,
        decreases self, 1nat,
    {
        match self {
            Value::U8(v) => Value::U8(*v),
            Value::U16(v) => Value::U16(*v),
            Value::U32(v) => Value::U32(*v),
            Value::U64(v) => Value::U64(*v),
            Value::F32(bits) => Value::F32(*bits),
            Value::F64(bits) => Value::F64(*bits),
            Value::Bytes(bytes) => Value::Bytes(slice_to_vec(bytes.as_slice())),
            Value::Str(text) => Value::Str(text.clone()),
            Value::Sequence(items) => Value::Sequence(copy_items(items)),
            Value::Compound(fields) => Value::Compound(copy_fields(fields)),
        }
    }
}

/// Deep copies of `items`, in order.
fn copy_items(items: &Vec<Value>) -> (copy: Vec<Value>)
    ensures
        item_trees(copy@) == item_trees(items@),
    decreases items, 0nat,
{
    let mut copy: Vec<Value> = Vec::new();
    let mut i: usize = 0;
    assert(items@.take(0) =~= copy@);
    while i < items.len()
        invariant
            i <= items.len(),
            item_trees(copy@) == item_trees(items@.take(i as int)),
        decreases items.len() - i,
    {
        let item = items[i].copy();
        proof {
            assert(copy@.push(item).drop_last() =~= copy@);
            assert(items@.take(i + 1).drop_last() =~= items@.take(i as int));
        }
        copy.push(item);
        i += 1;
    }
    assert(items@.take(i as int) =~= items@);
    copy
}

/// Deep copies of `fields`, in order.
fn copy_fields(fields: &Vec<Field>) -> (copy: Vec<Field>)
    ensures
        field_trees(copy@) == field_trees(fields@),
    decreases fields, 0nat,
{
    let mut copy: Vec<Field> = Vec::new();
    let mut i: usize = 0;
    assert(fields@.take(0) =~= copy@);
    while i < fields.len()
        invariant
            i <= fields.len(),
            field_trees(copy@) == field_trees(fields@.take(i as int)),
        decreases fields.len() - i,
    {
        let field = Field { name: fields[i].name.clone(), value: fields[i].value.copy() };
        proof {
            assert(copy@.push(field).drop_last() =~= copy@);
            assert(fields@.take(i + 1).drop_last() =~= fields@.take(i as int));
        }
        copy.push(field);
        i += 1;
    }
    assert(fields@.take(i as int) =~= fields@);
    copy
}

impl Clone for Value {
    /// A deep copy: a value with the same tree.
    fn clone(&self) -> (copy: Self)
        ensures
            copy@ == self@,
    {
        self.copy()
    }
}

impl Clone for Field {
    /// A deep copy: the same name, and a value with the same tree.
    fn clone(&self) -> (copy: Self)
        ensures
            copy.name@ == self.name@,
            copy.value@ == self.value@,
    {
        Field { name: self.name.clone(), value: self.value.copy() }
    }
}

} // verus!

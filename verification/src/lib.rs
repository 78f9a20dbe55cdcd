//! A codec for the NBT binary tag format: a self-describing, big-endian,
//! recursively nested tree of typed values.

use vstd::prelude::*;

pub mod endian;
pub mod equality;
pub mod error;
pub mod file;
pub mod laws;
pub mod read;
pub mod wire;
pub mod write;

verus! {

/// One node of a tag tree.
///
/// `TagFloat` and `TagDouble` hold the IEEE-754 bit pattern of their number,
/// exactly as it travels on the wire. `TagCompound` holds its entries in
/// insertion order; in a well-formed tag no name occurs twice. In `==` the
/// order of the entries does not count.
#[derive(Debug)]
pub enum NBTTag {
    TagEnd,
    TagByte(i8),
    TagShort(i16),
    TagInt(i32),
    TagLong(i64),
    TagFloat(u32),
    TagDouble(u64),
    TagByteArray(Vec<i8>),
    TagString(String),
    TagList(Vec<NBTTag>),
    TagCompound(Vec<(String, NBTTag)>),
    TagIntArray(Vec<i32>),
    TagLongArray(Vec<i64>),
}

/// The mathematical value of a tag: what contracts speak of.
pub enum TagValue {
    End,
    Byte(i8),
    Short(i16),
    Int(i32),
    Long(i64),
    Float(u32),
    Double(u64),
    ByteArray(Seq<i8>),
    Text(Seq<char>),
    List(Seq<TagValue>),
    Compound(Seq<(Seq<char>, TagValue)>),
    IntArray(Seq<i32>),
    LongArray(Seq<i64>),
}

/// The type id that announces a value on the wire. Zero is the terminator of
/// a compound and announces no value.
pub open spec fn type_id(t: TagValue) -> u8 {
    match t {
        TagValue::End => 0,
        TagValue::Byte(_) => 1,
        TagValue::Short(_) => 2,
        TagValue::Int(_) => 3,
        TagValue::Long(_) => 4,
        TagValue::Float(_) => 5,
        TagValue::Double(_) => 6,
        TagValue::ByteArray(_) => 7,
        TagValue::Text(_) => 8,
        TagValue::List(_) => 9,
        TagValue::Compound(_) => 10,
        TagValue::IntArray(_) => 11,
        TagValue::LongArray(_) => 12,
    }
}

/// No name occurs twice.
pub open spec fn names_distinct(entries: Seq<(Seq<char>, TagValue)>) -> bool {
    forall|i: int, j: int|
        0 <= i < j < entries.len() ==> (#[trigger] entries[i]).0 != (#[trigger] entries[j]).0
}

impl TagValue {
    /// Whether a value is one that a document can hold: it is not the
    /// terminator; a list has at least one element, and its elements are all
    /// of one variant; no name occurs twice in a compound; and so for all that
    /// a list or a compound holds.
    pub open spec fn well_formed(self) -> bool
        decreases self,
    {
        match self {
            TagValue::End => false,
            TagValue::List(items) => {
                &&& items.len() >= 1
                &&& forall|i: int| 0 <= i < items.len() ==> (#[trigger] items[i]).well_formed()
                &&& forall|i: int|
                    0 <= i < items.len() ==> type_id(#[trigger] items[i]) == type_id(items[0])
            },
            TagValue::Compound(entries) => {
                &&& names_distinct(entries)
                &&& forall|i: int|
                    0 <= i < entries.len() ==> (#[trigger] entries[i]).1.well_formed()
            },
            _ => true,
        }
    }
}

/// The value of a tag: the same tree, with mathematical sequences in the
/// place of vectors and strings.
pub open spec fn tag_value(t: NBTTag) -> TagValue
    decreases t,
{
    match t {
        NBTTag::TagEnd => TagValue::End,
        NBTTag::TagByte(v) => TagValue::Byte(v),
        NBTTag::TagShort(v) => TagValue::Short(v),
        NBTTag::TagInt(v) => TagValue::Int(v),
        NBTTag::TagLong(v) => TagValue::Long(v),
        NBTTag::TagFloat(bits) => TagValue::Float(bits),
        NBTTag::TagDouble(bits) => TagValue::Double(bits),
        NBTTag::TagByteArray(v) => TagValue::ByteArray(v@),
        NBTTag::TagString(s) => TagValue::Text(s@),
        NBTTag::TagList(v) => TagValue::List(values(v@)),
        NBTTag::TagCompound(v) => TagValue::Compound(entry_values(v@)),
        NBTTag::TagIntArray(v) => TagValue::IntArray(v@),
        NBTTag::TagLongArray(v) => TagValue::LongArray(v@),
    }
}

/// The values of the elements of a list.
pub open spec fn values(tags: Seq<NBTTag>) -> Seq<TagValue>
    decreases tags,
{
    Seq::new(
        tags.len(),
        |i: int|
            if 0 <= i < tags.len() {
                tag_value(tags[i])
            } else {
                TagValue::End
            },
    )
}

/// The entries of a compound, each a name and a value.
pub open spec fn entry_values(entries: Seq<(String, NBTTag)>) -> Seq<(Seq<char>, TagValue)>
    decreases entries,
{
    Seq::new(
        entries.len(),
        |i: int|
            if 0 <= i < entries.len() {
                (entries[i].0@, tag_value(entries[i].1))
            } else {
                (Seq::empty(), TagValue::End)
            },
    )
}

impl View for NBTTag {
    type V = TagValue;

    open spec fn view(&self) -> TagValue {
        tag_value(*self)
    }
}

impl Clone for NBTTag {
    /// A copy of the whole tree.
    fn clone(&self) -> (r: Self)
        ensures
            r@ == self@,
    {
        clone_tag(self)
    }
}

/// A copy of the whole tree below `tag`.
fn clone_tag(tag: &NBTTag) -> (r: NBTTag)
    ensures
        r@ == tag@,
    decreases tag,
{
    match tag {
        NBTTag::TagEnd => NBTTag::TagEnd,
        NBTTag::TagByte(v) => NBTTag::TagByte(*v),
        NBTTag::TagShort(v) => NBTTag::TagShort(*v),
        NBTTag::TagInt(v) => NBTTag::TagInt(*v),
        NBTTag::TagLong(v) => NBTTag::TagLong(*v),
        NBTTag::TagFloat(bits) => NBTTag::TagFloat(*bits),
        NBTTag::TagDouble(bits) => NBTTag::TagDouble(*bits),
        NBTTag::TagByteArray(v) => NBTTag::TagByteArray(v.clone()),
        NBTTag::TagString(s) => NBTTag::TagString(s.clone()),
        NBTTag::TagList(v) => {
            let mut copy: Vec<NBTTag> = Vec::new();
            let mut i: usize = 0;
            while i < v.len()
                invariant
                    *tag == NBTTag::TagList(*v),
                    i <= v.len(),
                    copy@.len() == i,
                    forall|k: int| 0 <= k < i ==> (#[trigger] copy@[k])@ == v@[k]@,
                decreases v.len() - i,
            {
                let item = &v[i];
                assert(decreases_to!(tag => tag->TagList_0[i as int]));
                copy.push(clone_tag(item));
                i += 1;
            }
            assert(values(copy@) =~= values(v@));
            NBTTag::TagList(copy)
        },
        NBTTag::TagCompound(v) => {
            let mut copy: Vec<(String, NBTTag)> = Vec::new();
            let mut i: usize = 0;
            while i < v.len()
                invariant
                    *tag == NBTTag::TagCompound(*v),
                    i <= v.len(),
                    copy@.len() == i,
                    forall|k: int|
                        0 <= k < i ==> (#[trigger] copy@[k]).0@ == v@[k].0@ && copy@[k].1@
                            == v@[k].1@,
                decreases v.len() - i,
            {
                let entry = &v[i];
                assert(decreases_to!(tag => tag->TagCompound_0[i as int].1));
                copy.push((entry.0.clone(), clone_tag(&entry.1)));
                i += 1;
            }
            assert(entry_values(copy@) =~= entry_values(v@));
            NBTTag::TagCompound(copy)
        },
        NBTTag::TagIntArray(v) => NBTTag::TagIntArray(v.clone()),
        NBTTag::TagLongArray(v) => NBTTag::TagLongArray(v.clone()),
    }
}

} // verus!

//! The encoder: from a tag tree to bytes.

use crate::endian::{
    be_bytes_4, lemma_bytes_of_residue, put_i16, put_i32, put_i64, put_i8, put_u16, put_u32,
    put_u64,
};
use crate::error::EncodeError;
use crate::wire::{
    encode_error, entries_bytes, first_entry_error, first_item_error, i32s_bytes,
    i64s_bytes, i8s_bytes, items_bytes, lemma_entries_bytes_push, lemma_first_entry_error_prefix,
    lemma_first_item_error_prefix, lemma_items_bytes_push, name_bytes, payload_bytes, tag_bytes,
};
use crate::{type_id, NBTTag, TagValue};
use vstd::prelude::*;

verus! {

/// The type id of a tag, or `None` for the terminator, which is no value.
pub fn get_tag_id(tag: &NBTTag) -> (r: Option<u8>)
    ensures
        tag@ is End ==> r is None,
        !(tag@ is End) ==> r == Some(type_id(tag@)),
        r matches Some(id) ==> 1 <= id <= 12,
{
    match tag {
        NBTTag::TagByte(_) => Some(1),
        NBTTag::TagShort(_) => Some(2),
        NBTTag::TagInt(_) => Some(3),
        NBTTag::TagLong(_) => Some(4),
        NBTTag::TagFloat(_) => Some(5),
        NBTTag::TagDouble(_) => Some(6),
        NBTTag::TagByteArray(_) => Some(7),
        NBTTag::TagString(_) => Some(8),
        NBTTag::TagList(_) => Some(9),
        NBTTag::TagCompound(_) => Some(10),
        NBTTag::TagIntArray(_) => Some(11),
        NBTTag::TagLongArray(_) => Some(12),
        NBTTag::TagEnd => None,
    }
}

/// The count that goes on the wire for `len` elements: `len` modulo 2^32,
/// read as a signed number.
fn wire_count(len: usize) -> (c: i32)
    ensures
        be_bytes_4(c as int) == be_bytes_4(len as int),
{
    let low: u64 = (len as u64) % 0x1_0000_0000;
    assert(be_bytes_4(low as int) == be_bytes_4(len as int)) by {
        lemma_bytes_of_residue(len as int);
    }
    if low >= 0x8000_0000 {
        let c: i32 = (low as i64 - 0x1_0000_0000) as i32;
        assert(be_bytes_4(c as int) == be_bytes_4(low as int)) by {
            lemma_bytes_of_residue(c as int);
        }
        c
    } else {
        low as i32
    }
}

/// Appends a name or a string: the length of its UTF-8 bytes, modulo 2^16,
/// and the bytes.
pub fn write_tag_name(output: &mut Vec<u8>, name: &str)
    ensures
        final(output)@ == old(output)@ + name_bytes(name@),
{
    let bytes = name.as_bytes();
    let len: usize = bytes.len();
    proof {
        lemma_bytes_of_residue(len as int);
    }
    put_u16(output, (len % 0x1_0000) as u16);
    output.extend_from_slice(bytes);
}

/// The payload of a byte tag.
pub fn write_tag_byte(input: &NBTTag) -> (r: Result<Vec<u8>, EncodeError>)
    ensures
        input@ is Byte ==> r is Ok && r->Ok_0@ == payload_bytes(input@),
        !(input@ is Byte) ==> r == Err::<Vec<u8>, _>(EncodeError::VariantMismatch),
{
    if let NBTTag::TagByte(tag_value) = input {
        let mut output: Vec<u8> = Vec::new();
        put_i8(&mut output, *tag_value);
        return Ok(output);
    }
    Err(EncodeError::VariantMismatch)
}

/// The payload of a short tag.
pub fn write_tag_short(input: &NBTTag) -> (r: Result<Vec<u8>, EncodeError>)
    ensures
        input@ is Short ==> r is Ok && r->Ok_0@ == payload_bytes(input@),
        !(input@ is Short) ==> r == Err::<Vec<u8>, _>(EncodeError::VariantMismatch),
{
    if let NBTTag::TagShort(tag_value) = input {
        let mut output: Vec<u8> = Vec::new();
        put_i16(&mut output, *tag_value);
        return Ok(output);
    }
    Err(EncodeError::VariantMismatch)
}

/// The payload of an int tag.
pub fn write_tag_int(input: &NBTTag) -> (r: Result<Vec<u8>, EncodeError>)
    ensures
        input@ is Int ==> r is Ok && r->Ok_0@ == payload_bytes(input@),
        !(input@ is Int) ==> r == Err::<Vec<u8>, _>(EncodeError::VariantMismatch),
{
    if let NBTTag::TagInt(tag_value) = input {
        let mut output: Vec<u8> = Vec::new();
        put_i32(&mut output, *tag_value);
        return Ok(output);
    }
    Err(EncodeError::VariantMismatch)
}

/// The payload of a long tag.
pub fn write_tag_long(input: &NBTTag) -> (r: Result<Vec<u8>, EncodeError>)
    ensures
        input@ is Long ==> r is Ok && r->Ok_0@ == payload_bytes(input@),
        !(input@ is Long) ==> r == Err::<Vec<u8>, _>(EncodeError::VariantMismatch),
{
    if let NBTTag::TagLong(tag_value) = input {
        let mut output: Vec<u8> = Vec::new();
        put_i64(&mut output, *tag_value);
        return Ok(output);
    }
    Err(EncodeError::VariantMismatch)
}

/// The payload of a float tag: the four bytes of its bit pattern.
pub fn write_tag_float(input: &NBTTag) -> (r: Result<Vec<u8>, EncodeError>)
    ensures
        input@ is Float ==> r is Ok && r->Ok_0@ == payload_bytes(input@),
        !(input@ is Float) ==> r == Err::<Vec<u8>, _>(EncodeError::VariantMismatch),
{
    if let NBTTag::TagFloat(bits) = input {
        let mut output: Vec<u8> = Vec::new();
        put_u32(&mut output, *bits);
        return Ok(output);
    }
    Err(EncodeError::VariantMismatch)
}

/// The payload of a double tag: the eight bytes of its bit pattern.
pub fn write_tag_double(input: &NBTTag) -> (r: Result<Vec<u8>, EncodeError>)
    ensures
        input@ is Double ==> r is Ok && r->Ok_0@ == payload_bytes(input@),
        !(input@ is Double) ==> r == Err::<Vec<u8>, _>(EncodeError::VariantMismatch),
{
    if let NBTTag::TagDouble(bits) = input {
        let mut output: Vec<u8> = Vec::new();
        put_u64(&mut output, *bits);
        return Ok(output);
    }
    Err(EncodeError::VariantMismatch)
}

/// The payload of a byte array: its count and its elements.
pub fn write_tag_byte_array(input: &NBTTag) -> (r: Result<Vec<u8>, EncodeError>)
    ensures
        input@ is ByteArray ==> r is Ok && r->Ok_0@ == payload_bytes(input@),
        !(input@ is ByteArray) ==> r == Err::<Vec<u8>, _>(EncodeError::VariantMismatch),
{
    if let NBTTag::TagByteArray(tag_value) = input {
        let mut output: Vec<u8> = Vec::new();
        put_i32(&mut output, wire_count(tag_value.len()));
        let ghost head = output@;
        let mut i: usize = 0;
        while i < tag_value.len()
            invariant
                i <= tag_value.len(),
                output@ == head + i8s_bytes(tag_value@.take(i as int)),
            decreases tag_value.len() - i,
        {
            put_i8(&mut output, tag_value[i]);
            i += 1;
        }
        return Ok(output);
    }
    Err(EncodeError::VariantMismatch)
}

/// The payload of a string tag: the length of its UTF-8 bytes and the bytes.
pub fn write_tag_string(input: &NBTTag) -> (r: Result<Vec<u8>, EncodeError>)
    ensures
        input@ is Text ==> r is Ok && r->Ok_0@ == payload_bytes(input@),
        !(input@ is Text) ==> r == Err::<Vec<u8>, _>(EncodeError::VariantMismatch),
{
    if let NBTTag::TagString(tag_value) = input {
        let mut output: Vec<u8> = Vec::new();
        write_tag_name(&mut output, tag_value.as_str());
        return Ok(output);
    }
    Err(EncodeError::VariantMismatch)
}

/// The payload of an int array: its count and its elements.
pub fn write_tag_int_array(input: &NBTTag) -> (r: Result<Vec<u8>, EncodeError>)
    ensures
        input@ is IntArray ==> r is Ok && r->Ok_0@ == payload_bytes(input@),
        !(input@ is IntArray) ==> r == Err::<Vec<u8>, _>(EncodeError::VariantMismatch),
{
    if let NBTTag::TagIntArray(tag_value) = input {
        let mut output: Vec<u8> = Vec::new();
        put_i32(&mut output, wire_count(tag_value.len()));
        let ghost head = output@;
        let mut i: usize = 0;
        while i < tag_value.len()
            invariant
                i <= tag_value.len(),
                output@ == head + i32s_bytes(tag_value@.take(i as int)),
            decreases tag_value.len() - i,
        {
            put_i32(&mut output, tag_value[i]);
            i += 1;
        }
        return Ok(output);
    }
    Err(EncodeError::VariantMismatch)
}

/// The payload of a long array: its count and its elements.
pub fn write_tag_long_array(input: &NBTTag) -> (r: Result<Vec<u8>, EncodeError>)
    ensures
        input@ is LongArray ==> r is Ok && r->Ok_0@ == payload_bytes(input@),
        !(input@ is LongArray) ==> r == Err::<Vec<u8>, _>(EncodeError::VariantMismatch),
{
    if let NBTTag::TagLongArray(tag_value) = input {
        let mut output: Vec<u8> = Vec::new();
        put_i32(&mut output, wire_count(tag_value.len()));
        let ghost head = output@;
        let mut i: usize = 0;
        while i < tag_value.len()
            invariant
                i <= tag_value.len(),
                output@ == head + i64s_bytes(tag_value@.take(i as int)),
            decreases tag_value.len() - i,
        {
            put_i64(&mut output, tag_value[i]);
            i += 1;
        }
        return Ok(output);
    }
    Err(EncodeError::VariantMismatch)
}

/// The payload of a compound: each entry with its type id and its name, in
/// order, and the terminator. The first entry that cannot be written fails
/// the whole.
pub fn write_tag_compound(input: &NBTTag) -> (r: Result<Vec<u8>, EncodeError>)
    ensures
        !(input@ is Compound) ==> r == Err::<Vec<u8>, _>(EncodeError::VariantMismatch),
        input@ is Compound ==> match r {
            Ok(out) => encode_error(input@) is None && out@ == payload_bytes(input@),
            Err(e) => encode_error(input@) == Some(e),
        },
    decreases input, 0int,
{
    if let NBTTag::TagCompound(tag_value) = input {
        let mut output: Vec<u8> = Vec::new();
        let ghost entries = input@->Compound_0;
        let mut i: usize = 0;
        while i < tag_value.len()
            invariant
                i <= tag_value.len(),
                *input == NBTTag::TagCompound(*tag_value),
                entries == input@->Compound_0,
                entries.len() == tag_value.len(),
                first_entry_error(entries.take(i as int)) is None,
                output@ == entries_bytes(entries.take(i as int)),
            decreases tag_value.len() - i,
        {
            let entry = &tag_value[i];
            assert(entries.take(i + 1).drop_last() =~= entries.take(i as int));
            match write_tag(&entry.1, true, true, Some(&entry.0)) {
                Ok(mut result) => {
                    output.append(&mut result);
                    proof {
                        lemma_entries_bytes_push(entries.take(i as int), entries[i as int]);
                        assert(entries.take(i + 1) =~= entries.take(i as int).push(
                            entries[i as int],
                        ));
                    }
                },
                Err(msg) => {
                    proof {
                        lemma_first_entry_error_prefix(entries, i + 1);
                    }
                    return Err(msg);
                },
            }
            i += 1;
        }
        assert(entries.take(i as int) =~= entries);
        output.push(0);
        return Ok(output);
    }
    Err(EncodeError::VariantMismatch)
}

/// The payload of a list: the type id of its first element, its count, and
/// the payload of each element, in order. A list without elements fails, and
/// so does one with an element that cannot be written.
pub fn write_tag_list(input: &NBTTag) -> (r: Result<Vec<u8>, EncodeError>)
    ensures
        !(input@ is List) ==> r == Err::<Vec<u8>, _>(EncodeError::VariantMismatch),
        input@ is List ==> match r {
            Ok(out) => encode_error(input@) is None && out@ == payload_bytes(input@),
            Err(e) => encode_error(input@) == Some(e),
        },
        input@ matches TagValue::List(items) && items.len() == 0 ==> r == Err::<Vec<u8>, _>(
            EncodeError::StructuralViolation,
        ),
    decreases input, 0int,
{
    if let NBTTag::TagList(tag_value) = input {
        let mut output: Vec<u8> = Vec::new();
        let ghost items = input@->List_0;
        if tag_value.len() == 0 {
            return Err(EncodeError::StructuralViolation);
        }
        if let Some(tag_id) = get_tag_id(&tag_value[0]) {
            output.push(tag_id);
        } else {
            proof {
                assert(items.take(1).drop_last() =~= Seq::<TagValue>::empty());
                assert(first_item_error(Seq::<TagValue>::empty()) is None);
                assert(encode_error(items[0]) == Some(EncodeError::VariantMismatch));
                lemma_first_item_error_prefix(items, 1);
            }
            return Err(EncodeError::VariantMismatch);
        }
        put_i32(&mut output, wire_count(tag_value.len()));
        let ghost head = output@;
        let mut i: usize = 0;
        while i < tag_value.len()
            invariant
                i <= tag_value.len(),
                *input == NBTTag::TagList(*tag_value),
                items == input@->List_0,
                items.len() == tag_value.len(),
                first_item_error(items.take(i as int)) is None,
                output@ == head + items_bytes(items.take(i as int)),
            decreases tag_value.len() - i,
        {
            let tag = &tag_value[i];
            assert(items.take(i + 1).drop_last() =~= items.take(i as int));
            match write_tag(tag, false, false, None) {
                Ok(mut result) => {
                    output.append(&mut result);
                    proof {
                        lemma_items_bytes_push(items.take(i as int), items[i as int]);
                        assert(items.take(i + 1) =~= items.take(i as int).push(items[i as int]));
                    }
                },
                Err(msg) => {
                    proof {
                        lemma_first_item_error_prefix(items, i + 1);
                    }
                    return Err(msg);
                },
            }
            i += 1;
        }
        assert(items.take(i as int) =~= items);
        return Ok(output);
    }
    Err(EncodeError::VariantMismatch)
}

/// The name that a caller hands to `write_tag`, as a value.
pub open spec fn name_value(name: Option<&String>) -> Option<Seq<char>> {
    match name {
        Some(s) => Some(s@),
        None => None,
    }
}

/// The bytes of a tag: its type id where `write_id` asks for it, its name
/// where `write_name` asks for it and a name is there, and its payload.
///
/// Fails on the terminator, on a list without elements, and on a list or a
/// compound that holds one of these; and on nothing else. Lists and
/// compounds are written by recursion, as deep as they are nested.
pub fn write_tag(input: &NBTTag, write_id: bool, write_name: bool, name: Option<&String>) -> (r:
    Result<Vec<u8>, EncodeError>)
    ensures
        match r {
            Ok(out) => encode_error(input@) is None && out@ == tag_bytes(
                input@,
                write_id,
                write_name,
                name_value(name),
            ),
            Err(e) => encode_error(input@) == Some(e),
        },
    decreases input, 1int,
{
    let mut output: Vec<u8> = Vec::new();

    if write_id {
        if let Some(tag_id) = get_tag_id(input) {
            output.push(tag_id);
        }
    }
    if write_name {
        if let Some(name_val) = name {
            write_tag_name(&mut output, name_val.as_str());
        }
    }

    let tag_result = match input {
        NBTTag::TagByte(_) => write_tag_byte(input),
        NBTTag::TagShort(_) => write_tag_short(input),
        NBTTag::TagInt(_) => write_tag_int(input),
        NBTTag::TagLong(_) => write_tag_long(input),
        NBTTag::TagFloat(_) => write_tag_float(input),
        NBTTag::TagDouble(_) => write_tag_double(input),
        NBTTag::TagByteArray(_) => write_tag_byte_array(input),
        NBTTag::TagString(_) => write_tag_string(input),
        NBTTag::TagList(_) => write_tag_list(input),
        NBTTag::TagCompound(_) => write_tag_compound(input),
        NBTTag::TagIntArray(_) => write_tag_int_array(input),
        NBTTag::TagLongArray(_) => write_tag_long_array(input),
        NBTTag::TagEnd => Err(EncodeError::VariantMismatch),
    };
    match tag_result {
        Ok(mut payload) => {
            output.append(&mut payload);
            Ok(output)
        },
        Err(msg) => Err(msg),
    }
}

} // verus!

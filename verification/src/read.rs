//! The decoder: from bytes to a tag tree.
//!
//! Every reader takes the input at the place where its value begins and
//! returns the input behind the value together with the value, or the reason
//! why no value stands there.

use crate::error::DecodeError;
use crate::file::{Document, NBTFile};
use crate::wire::{
    collect_entries, i32s_value, i64s_value, i8s_value, insert_entry, lemma_parse_entries_step,
    lemma_parse_items_step, lemma_parse_named_shortens, lemma_parse_payload_shortens,
    parse_count, parse_document, parse_entries, parse_items, parse_name, parse_named,
    parse_payload, with_front,
};
use crate::{entry_values, names_distinct, values, NBTTag, TagValue};
use vstd::pervasive::VecAdditionalExecFns;
use vstd::prelude::*;
use vstd::slice::slice_subrange;
use vstd::utf8::{decode_utf8, valid_utf8};

verus! {

/// Calls `std::str::from_utf8`, which returns the text that the bytes encode
/// if they are valid UTF-8, and fails otherwise.
#[verifier::external_body]
fn text_of(bytes: &[u8]) -> (r: Option<&str>)
    ensures
        r is Some <==> valid_utf8(bytes@),
        r matches Some(s) ==> s@ == decode_utf8(bytes@),
{
    match std::str::from_utf8(bytes) {
        Ok(s) => Some(s),
        Err(_) => None,
    }
}

/// What a reader of tags returned, held against what the format says stands
/// at the head of the input.
pub open spec fn decoded(
    r: Result<(&[u8], NBTTag), DecodeError>,
    expected: Result<(Seq<u8>, TagValue), DecodeError>,
) -> bool {
    match r {
        Ok((rest, tag)) => expected == Ok::<(Seq<u8>, TagValue), DecodeError>((rest@, tag@)),
        Err(e) => expected == Err::<(Seq<u8>, TagValue), DecodeError>(e),
    }
}

/// A name: a 16-bit length and that many bytes of UTF-8.
///
/// Fails with `Truncation` where fewer than two bytes, or fewer bytes than
/// the length says, are there, and with `MalformedText` where the bytes are
/// not valid UTF-8.
pub fn read_tag_name(input: &[u8]) -> (r: Result<(&[u8], &str), DecodeError>)
    ensures
        match r {
            Ok((rest, name)) => parse_name(input@) == Ok::<(Seq<u8>, Seq<char>), DecodeError>(
                (rest@, name@),
            ),
            Err(e) => parse_name(input@) == Err::<(Seq<u8>, Seq<char>), DecodeError>(e),
        },
{
    match nom::be_u16(input) {
        Ok((body, len)) => {
            let len: usize = len as usize;
            if body.len() < len {
                return Err(DecodeError::Truncation);
            }
            let text = slice_subrange(body, 0, len);
            let rest = slice_subrange(body, len, body.len());
            match text_of(text) {
                Some(name) => Ok((rest, name)),
                None => Err(DecodeError::MalformedText),
            }
        },
        Err(_) => Err(DecodeError::Truncation),
    }
}

/// The count of an array or a list: a signed 32-bit number, refused where it
/// is below one.
fn read_count(input: &[u8]) -> (r: Result<(&[u8], usize), DecodeError>)
    ensures
        match r {
            Ok((body, n)) => parse_count(input@) == Ok::<(Seq<u8>, nat), DecodeError>(
                (body@, n as nat),
            ),
            Err(e) => parse_count(input@) == Err::<(Seq<u8>, nat), DecodeError>(e),
        },
{
    match nom::be_i32(input) {
        Ok((body, len)) => {
            if len < 1 {
                Err(DecodeError::StructuralViolation)
            } else {
                Ok((body, len as usize))
            }
        },
        Err(_) => Err(DecodeError::Truncation),
    }
}

/// The payload of a byte tag: one byte.
pub fn read_tag_byte(input: &[u8]) -> (r: Result<(&[u8], NBTTag), DecodeError>)
    ensures
        decoded(r, parse_payload(1, input@)),
{
    match nom::be_i8(input) {
        Ok((rest, val)) => Ok((rest, NBTTag::TagByte(val))),
        Err(_) => Err(DecodeError::Truncation),
    }
}

/// The payload of a short tag: two bytes.
pub fn read_tag_short(input: &[u8]) -> (r: Result<(&[u8], NBTTag), DecodeError>)
    ensures
        decoded(r, parse_payload(2, input@)),
{
    match nom::be_i16(input) {
        Ok((rest, val)) => Ok((rest, NBTTag::TagShort(val))),
        Err(_) => Err(DecodeError::Truncation),
    }
}

/// The payload of an int tag: four bytes.
pub fn read_tag_int(input: &[u8]) -> (r: Result<(&[u8], NBTTag), DecodeError>)
    ensures
        decoded(r, parse_payload(3, input@)),
{
    match nom::be_i32(input) {
        Ok((rest, val)) => Ok((rest, NBTTag::TagInt(val))),
        Err(_) => Err(DecodeError::Truncation),
    }
}

/// The payload of a long tag: eight bytes.
pub fn read_tag_long(input: &[u8]) -> (r: Result<(&[u8], NBTTag), DecodeError>)
    ensures
        decoded(r, parse_payload(4, input@)),
{
    match nom::be_i64(input) {
        Ok((rest, val)) => Ok((rest, NBTTag::TagLong(val))),
        Err(_) => Err(DecodeError::Truncation),
    }
}

/// The payload of a float tag: the four bytes of its bit pattern.
pub fn read_tag_float(input: &[u8]) -> (r: Result<(&[u8], NBTTag), DecodeError>)
    ensures
        decoded(r, parse_payload(5, input@)),
{
    match nom::be_u32(input) {
        Ok((rest, bits)) => Ok((rest, NBTTag::TagFloat(bits))),
        Err(_) => Err(DecodeError::Truncation),
    }
}

/// The payload of a double tag: the eight bytes of its bit pattern.
pub fn read_tag_double(input: &[u8]) -> (r: Result<(&[u8], NBTTag), DecodeError>)
    ensures
        decoded(r, parse_payload(6, input@)),
{
    match nom::be_u64(input) {
        Ok((rest, bits)) => Ok((rest, NBTTag::TagDouble(bits))),
        Err(_) => Err(DecodeError::Truncation),
    }
}

/// The payload of a byte array: a count of at least one, and that many bytes.
pub fn read_tag_byte_array(input: &[u8]) -> (r: Result<(&[u8], NBTTag), DecodeError>)
    ensures
        decoded(r, parse_payload(7, input@)),
{
    match read_count(input) {
        Ok((body, len)) => {
            let mut val: Vec<i8> = Vec::new();
            let mut cur = body;
            let mut i: usize = 0;
            while i < len
                invariant
                    parse_count(input@) == Ok::<(Seq<u8>, nat), DecodeError>((body@, len as nat)),
                    i <= len,
                    i <= body@.len(),
                    cur@ == body@.skip(i as int),
                    val@ == i8s_value(body@, i as nat),
                decreases len - i,
            {
                match nom::be_i8(cur) {
                    Ok((rest, elem)) => {
                        val.push(elem);
                        cur = rest;
                    },
                    Err(_) => {
                        return Err(DecodeError::Truncation);
                    },
                }
                i += 1;
            }
            Ok((cur, NBTTag::TagByteArray(val)))
        },
        Err(e) => Err(e),
    }
}

/// The payload of a string tag: a 16-bit length and that many bytes of UTF-8.
pub fn read_tag_string(input: &[u8]) -> (r: Result<(&[u8], NBTTag), DecodeError>)
    ensures
        decoded(r, parse_payload(8, input@)),
{
    match read_tag_name(input) {
        Ok((rest, val)) => Ok((rest, NBTTag::TagString(val.to_owned()))),
        Err(e) => Err(e),
    }
}

/// The payload of an int array: a count of at least one, and that many
/// groups of four bytes.
pub fn read_tag_int_array(input: &[u8]) -> (r: Result<(&[u8], NBTTag), DecodeError>)
    ensures
        decoded(r, parse_payload(11, input@)),
{
    match read_count(input) {
        Ok((body, len)) => {
            let mut val: Vec<i32> = Vec::new();
            let mut cur = body;
            let mut i: usize = 0;
            while i < len
                invariant
                    parse_count(input@) == Ok::<(Seq<u8>, nat), DecodeError>((body@, len as nat)),
                    i <= len,
                    4 * i <= body@.len(),
                    cur@ == body@.skip(4 * i),
                    val@ == i32s_value(body@, i as nat),
                decreases len - i,
            {
                match nom::be_i32(cur) {
                    Ok((rest, elem)) => {
                        val.push(elem);
                        cur = rest;
                    },
                    Err(_) => {
                        return Err(DecodeError::Truncation);
                    },
                }
                i += 1;
            }
            Ok((cur, NBTTag::TagIntArray(val)))
        },
        Err(e) => Err(e),
    }
}

/// The payload of a long array: a count of at least one, and that many
/// groups of eight bytes.
pub fn read_tag_long_array(input: &[u8]) -> (r: Result<(&[u8], NBTTag), DecodeError>)
    ensures
        decoded(r, parse_payload(12, input@)),
{
    match read_count(input) {
        Ok((body, len)) => {
            let mut val: Vec<i64> = Vec::new();
            let mut cur = body;
            let mut i: usize = 0;
            while i < len
                invariant
                    parse_count(input@) == Ok::<(Seq<u8>, nat), DecodeError>((body@, len as nat)),
                    i <= len,
                    8 * i <= body@.len(),
                    cur@ == body@.skip(8 * i),
                    val@ == i64s_value(body@, i as nat),
                decreases len - i,
            {
                match nom::be_i64(cur) {
                    Ok((rest, elem)) => {
                        val.push(elem);
                        cur = rest;
                    },
                    Err(_) => {
                        return Err(DecodeError::Truncation);
                    },
                }
                i += 1;
            }
            Ok((cur, NBTTag::TagLongArray(val)))
        },
        Err(e) => Err(e),
    }
}

/// The payload of a list: the type id of its elements, a count of at least
/// one, and that many payloads of that type.
pub fn read_tag_list(input: &[u8]) -> (r: Result<(&[u8], NBTTag), DecodeError>)
    ensures
        decoded(r, parse_payload(9, input@)),
    decreases input@.len(), 2int,
{
    if input.len() < 1 {
        return Err(DecodeError::Truncation);
    }
    let elems_type: u8 = input[0];
    match read_count(slice_subrange(input, 1, input.len())) {
        Ok((body, len)) => {
            let mut elems: Vec<NBTTag> = Vec::new();
            let mut cur = body;
            let mut i: usize = 0;
            while i < len
                invariant
                    input@.len() >= 1,
                    elems_type == input@[0],
                    parse_count(input@.skip(1)) == Ok::<(Seq<u8>, nat), DecodeError>(
                        (body@, len as nat),
                    ),
                    i <= len,
                    cur@.len() <= body@.len(),
                    parse_items(elems_type, len as nat, body@) == with_front(
                        values(elems@),
                        parse_items(elems_type, (len - i) as nat, cur@),
                    ),
                decreases len - i,
            {
                match read_tag_known(cur, elems_type) {
                    Ok((rest, elem)) => {
                        proof {
                            lemma_parse_payload_shortens(elems_type, cur@);
                            lemma_parse_items_step(
                                values(elems@),
                                elems_type,
                                (len - i) as nat,
                                cur@,
                            );
                            assert(values(elems@.push(elem)) =~= values(elems@).push(elem@));
                        }
                        elems.push(elem);
                        cur = rest;
                    },
                    Err(e) => {
                        return Err(e);
                    },
                }
                i += 1;
            }
            Ok((cur, NBTTag::TagList(elems)))
        },
        Err(e) => Err(e),
    }
}

/// The entries that a compound was read with, each a name and a value.
pub open spec fn raw_entry_values(raw: Seq<(&str, NBTTag)>) -> Seq<(Seq<char>, TagValue)> {
    Seq::new(raw.len(), |i: int| (raw[i].0@, raw[i].1@))
}

/// Puts `value` under `name`: in the place of the entry of that name where
/// there is one, else at the end.
fn put_entry(map: &mut Vec<(String, NBTTag)>, name: String, value: NBTTag)
    requires
        names_distinct(entry_values(old(map)@)),
    ensures
        entry_values(final(map)@) == insert_entry(entry_values(old(map)@), name@, value@),
        names_distinct(entry_values(final(map)@)),
{
    let ghost before = entry_values(map@);
    let mut i: usize = 0;
    while i < map.len()
        invariant
            i <= map.len(),
            before == entry_values(old(map)@),
            map@ == old(map)@,
            names_distinct(before),
            forall|k: int| 0 <= k < i ==> (#[trigger] before[k]).0 != name@,
        decreases map.len() - i,
    {
        assert(before[i as int].0 == map@[i as int].0@);
        if map[i].0 == name {
            map.set(i, (name, value));
            return ;
        }
        i += 1;
    }
    map.push((name, value));
    assert(entry_values(map@) =~= insert_entry(before, name@, value@));
}

/// Makes the entries of a compound, as they were read, into a mapping: each
/// name once, in the place where it first stood, with the value that came
/// last.
pub fn tuple_vector_to_hash_map(input: Vec<(&str, NBTTag)>) -> (map: Vec<(String, NBTTag)>)
    ensures
        entry_values(map@) == collect_entries(raw_entry_values(input@)),
        names_distinct(entry_values(map@)),
{
    let ghost raw = raw_entry_values(input@);
    let mut input = input;
    let mut map: Vec<(String, NBTTag)> = Vec::new();
    let mut i: usize = 0;
    while i < input.len()
        invariant
            i <= input.len(),
            raw.len() == input.len(),
            forall|k: int| i <= k < input.len() ==> raw[k] == (input@[k].0@, input@[k].1@),
            entry_values(map@) == collect_entries(raw.take(i as int)),
            names_distinct(entry_values(map@)),
        decreases input.len() - i,
    {
        let mut item: (&str, NBTTag) = ("", NBTTag::TagEnd);
        input.set_and_swap(i, &mut item);
        assert(raw.take(i + 1).drop_last() =~= raw.take(i as int));
        put_entry(&mut map, item.0.to_owned(), item.1);
        i += 1;
    }
    assert(raw.take(i as int) =~= raw);
    map
}

/// The payload of a compound: named values up to a terminator, which is
/// taken and not kept. Of two entries of one name the later wins.
pub fn read_tag_compound(input: &[u8]) -> (r: Result<(&[u8], NBTTag), DecodeError>)
    ensures
        decoded(r, parse_payload(10, input@)),
    decreases input@.len(), 2int,
{
    let mut elems: Vec<(&str, NBTTag)> = Vec::new();
    let mut cur = input;
    loop
        invariant
            cur@.len() <= input@.len(),
            parse_entries(input@) == with_front(raw_entry_values(elems@), parse_entries(cur@)),
        decreases cur@.len(),
    {
        if cur.len() < 1 {
            return Err(DecodeError::Truncation);
        }
        if cur[0] == 0 {
            let rest = slice_subrange(cur, 1, cur.len());
            return Ok((rest, NBTTag::TagCompound(tuple_vector_to_hash_map(elems))));
        }
        match read_tag(cur) {
            Ok((rest, entry)) => {
                proof {
                    lemma_parse_named_shortens(cur@);
                    lemma_parse_entries_step(raw_entry_values(elems@), cur@);
                    assert(raw_entry_values(elems@.push(entry)) =~= raw_entry_values(elems@).push(
                        (entry.0@, entry.1@),
                    ));
                }
                elems.push(entry);
                cur = rest;
            },
            Err(e) => {
                return Err(e);
            },
        }
    }
}

/// One named value: a type id, a name, and the payload of that type.
pub fn read_tag(input: &[u8]) -> (r: Result<(&[u8], (&str, NBTTag)), DecodeError>)
    ensures
        match r {
            Ok((rest, (name, tag))) => parse_named(input@) == Ok::<
                (Seq<u8>, (Seq<char>, TagValue)),
                DecodeError,
            >((rest@, (name@, tag@))),
            Err(e) => parse_named(input@) == Err::<(Seq<u8>, (Seq<char>, TagValue)), DecodeError>(
                e,
            ),
        },
    decreases input@.len(), 1int,
{
    if input.len() < 1 {
        return Err(DecodeError::Truncation);
    }
    let tag_type: u8 = input[0];
    match read_tag_name(slice_subrange(input, 1, input.len())) {
        Ok((body, name)) => match read_tag_known(body, tag_type) {
            Ok((rest, output)) => Ok((rest, (name, output))),
            Err(e) => Err(e),
        },
        Err(e) => Err(e),
    }
}

/// The payload of a value whose type id is already known.
///
/// Fails with `UnknownTypeId` on every id outside 1 to 12, whatever the
/// input holds. Lists and compounds are read by recursion, as deep as they
/// are nested: the depth of the input is the depth of the call stack.
pub fn read_tag_known(input: &[u8], tag_type: u8) -> (r: Result<(&[u8], NBTTag), DecodeError>)
    ensures
        decoded(r, parse_payload(tag_type, input@)),
        !(1 <= tag_type <= 12) ==> r is Err && r->Err_0 == DecodeError::UnknownTypeId,
    decreases input@.len(), 3int,
{
    match tag_type {
        1 => read_tag_byte(input),
        2 => read_tag_short(input),
        3 => read_tag_int(input),
        4 => read_tag_long(input),
        5 => read_tag_float(input),
        6 => read_tag_double(input),
        7 => read_tag_byte_array(input),
        8 => read_tag_string(input),
        9 => read_tag_list(input),
        10 => read_tag_compound(input),
        11 => read_tag_int_array(input),
        12 => read_tag_long_array(input),
        _ => Err(DecodeError::UnknownTypeId),
    }
}

/// A document out of a named value: `None` unless the value is a compound.
pub fn file_from_tuple(tuple: (&str, NBTTag)) -> (r: Option<NBTFile>)
    ensures
        tuple.1@ is Compound ==> r is Some && r->Some_0@ == (Document {
            name: tuple.0@,
            root: tuple.1@,
        }),
        !(tuple.1@ is Compound) ==> r is None,
{
    if let NBTTag::TagCompound(_) = &tuple.1 {
        Some(NBTFile { root_name: tuple.0.to_owned(), root: tuple.1 })
    } else {
        None
    }
}

/// The view of what `read_nbt_file` returns on success.
pub open spec fn document_value(file: Option<NBTFile>) -> Option<Document> {
    match file {
        Some(f) => Some(f@),
        None => None,
    }
}

/// The named value at the head of the input, as a document where its
/// payload is a compound and as `None` where it is not.
pub fn read_nbt_file(input: &[u8]) -> (r: Result<(&[u8], Option<NBTFile>), DecodeError>)
    ensures
        match r {
            Ok((rest, file)) => parse_document(input@) == Ok::<
                (Seq<u8>, Option<Document>),
                DecodeError,
            >((rest@, document_value(file))),
            Err(e) => parse_document(input@) == Err::<(Seq<u8>, Option<Document>), DecodeError>(e),
        },
{
    match read_tag(input) {
        Ok((rest, root)) => Ok((rest, file_from_tuple(root))),
        Err(e) => Err(e),
    }
}

} // verus!

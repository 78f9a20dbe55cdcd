//! The wire format, as mathematics: the bytes of a value, and the value of
//! bytes.
//!
//! Every multi-byte number is big-endian. A name or a string is a 16-bit
//! length and that many bytes of UTF-8. An array is a 32-bit count and its
//! elements. A list is the type id of its elements, a 32-bit count and the
//! payloads alone. A compound is a run of entries, each a type id, a name and
//! a payload, closed by a single zero byte.

use crate::endian::{
    be_bytes_1, be_bytes_2, be_bytes_4, be_bytes_8, be_i16_value, be_i32_value, be_i64_value,
    be_i8_value, be_u16_value, be_u32_value, be_u64_value, low_byte,
};
use crate::error::{DecodeError, EncodeError};
use crate::file::Document;
use crate::{type_id, TagValue};
use vstd::prelude::*;
use vstd::utf8::{decode_utf8, encode_utf8, valid_utf8};

verus! {

// ---------------------------------------------------------------------------
// From values to bytes
// ---------------------------------------------------------------------------

/// A name or a string on the wire: the length of its UTF-8 bytes, modulo
/// 2^16, and the bytes.
pub open spec fn name_bytes(s: Seq<char>) -> Seq<u8> {
    be_bytes_2(encode_utf8(s).len() as int) + encode_utf8(s)
}

/// The elements of a byte array, one byte each.
pub open spec fn i8s_bytes(s: Seq<i8>) -> Seq<u8> {
    Seq::new(s.len(), |k: int| low_byte(s[k] as int))
}

/// The elements of an int array, four bytes each.
pub open spec fn i32s_bytes(s: Seq<i32>) -> Seq<u8> {
    Seq::new(4 * s.len(), |k: int| be_bytes_4(s[k / 4] as int)[k % 4])
}

/// The elements of a long array, eight bytes each.
pub open spec fn i64s_bytes(s: Seq<i64>) -> Seq<u8> {
    Seq::new(8 * s.len(), |k: int| be_bytes_8(s[k / 8] as int)[k % 8])
}

/// The type id that a list writes for its elements: that of the first.
pub open spec fn element_id(items: Seq<TagValue>) -> u8 {
    if items.len() > 0 {
        type_id(items[0])
    } else {
        0
    }
}

/// The payload of a value: its bytes without type id and name. A count is
/// written modulo 2^32.
pub open spec fn payload_bytes(t: TagValue) -> Seq<u8>
    decreases t, 0int,
{
    match t {
        TagValue::End => Seq::empty(),
        TagValue::Byte(v) => be_bytes_1(v as int),
        TagValue::Short(v) => be_bytes_2(v as int),
        TagValue::Int(v) => be_bytes_4(v as int),
        TagValue::Long(v) => be_bytes_8(v as int),
        TagValue::Float(bits) => be_bytes_4(bits as int),
        TagValue::Double(bits) => be_bytes_8(bits as int),
        TagValue::ByteArray(s) => be_bytes_4(s.len() as int) + i8s_bytes(s),
        TagValue::Text(s) => name_bytes(s),
        TagValue::List(items) => seq![element_id(items)] + be_bytes_4(items.len() as int)
            + items_bytes(items),
        TagValue::Compound(entries) => entries_bytes(entries) + seq![0u8],
        TagValue::IntArray(s) => be_bytes_4(s.len() as int) + i32s_bytes(s),
        TagValue::LongArray(s) => be_bytes_4(s.len() as int) + i64s_bytes(s),
    }
}

/// The payloads of the elements of a list, one after the other.
pub open spec fn items_bytes(items: Seq<TagValue>) -> Seq<u8>
    decreases items, 0int,
{
    if items.len() == 0 {
        Seq::empty()
    } else {
        payload_bytes(items[0]) + items_bytes(items.drop_first())
    }
}

/// One entry of a compound: type id, name, payload.
pub open spec fn entry_bytes(name: Seq<char>, t: TagValue) -> Seq<u8>
    decreases t, 1int,
{
    seq![type_id(t)] + name_bytes(name) + payload_bytes(t)
}

/// The entries of a compound, one after the other, without the terminator.
pub open spec fn entries_bytes(entries: Seq<(Seq<char>, TagValue)>) -> Seq<u8>
    decreases entries, 0int,
{
    if entries.len() == 0 {
        Seq::empty()
    } else {
        entry_bytes(entries[0].0, entries[0].1) + entries_bytes(entries.drop_first())
    }
}

/// A value on the wire, with its type id where `write_id` asks for it and
/// with its name where `write_name` asks for it and a name is there.
pub open spec fn tag_bytes(
    t: TagValue,
    write_id: bool,
    write_name: bool,
    name: Option<Seq<char>>,
) -> Seq<u8> {
    (if write_id {
        seq![type_id(t)]
    } else {
        Seq::empty()
    }) + (if write_name && name is Some {
        name_bytes(name->Some_0)
    } else {
        Seq::empty()
    }) + payload_bytes(t)
}

/// Whether the wire can hold a value as it is: a name or a string of at
/// most 65535 bytes of UTF-8, an array of one to 2^31 - 1 elements, a list
/// of at most 2^31 - 1, and so for all that a list or a compound holds. Of
/// any other value the length or the count that is written is not its own,
/// or the reader refuses it.
pub open spec fn fits_wire(t: TagValue) -> bool
    decreases t,
{
    match t {
        TagValue::ByteArray(s) => 1 <= s.len() <= 0x7FFF_FFFF,
        TagValue::IntArray(s) => 1 <= s.len() <= 0x7FFF_FFFF,
        TagValue::LongArray(s) => 1 <= s.len() <= 0x7FFF_FFFF,
        TagValue::Text(s) => name_fits_wire(s),
        TagValue::List(items) => items.len() <= 0x7FFF_FFFF && forall|i: int|
            0 <= i < items.len() ==> fits_wire(#[trigger] items[i]),
        TagValue::Compound(entries) => forall|i: int|
            0 <= i < entries.len() ==> name_fits_wire((#[trigger] entries[i]).0) && fits_wire(
                entries[i].1,
            ),
        _ => true,
    }
}

/// Whether the 16-bit length prefix can hold the length of a name.
pub open spec fn name_fits_wire(s: Seq<char>) -> bool {
    encode_utf8(s).len() <= 0xFFFF
}

/// Why a value cannot be written, if it cannot: the terminator is no value,
/// and a list without elements has no element type. Inside a list or a
/// compound the first element that cannot be written decides.
pub open spec fn encode_error(t: TagValue) -> Option<EncodeError>
    decreases t,
{
    match t {
        TagValue::End => Some(EncodeError::VariantMismatch),
        TagValue::List(items) => if items.len() == 0 {
            Some(EncodeError::StructuralViolation)
        } else {
            first_item_error(items)
        },
        TagValue::Compound(entries) => first_entry_error(entries),
        _ => None,
    }
}

/// The error of the first element of a list that cannot be written.
pub open spec fn first_item_error(items: Seq<TagValue>) -> Option<EncodeError>
    decreases items,
{
    if items.len() == 0 {
        None
    } else if first_item_error(items.drop_last()) is Some {
        first_item_error(items.drop_last())
    } else {
        encode_error(items.last())
    }
}

/// The error of the first entry of a compound that cannot be written.
pub open spec fn first_entry_error(entries: Seq<(Seq<char>, TagValue)>) -> Option<EncodeError>
    decreases entries,
{
    if entries.len() == 0 {
        None
    } else if first_entry_error(entries.drop_last()) is Some {
        first_entry_error(entries.drop_last())
    } else {
        encode_error(entries.last().1)
    }
}

// ---------------------------------------------------------------------------
// From bytes to values
// ---------------------------------------------------------------------------

/// A name or a string at the head of `bytes`, and what follows it.
pub open spec fn parse_name(bytes: Seq<u8>) -> Result<(Seq<u8>, Seq<char>), DecodeError> {
    if bytes.len() < 2 {
        Err(DecodeError::Truncation)
    } else {
        let len = be_u16_value(bytes);
        let body = bytes.skip(2);
        if body.len() < len {
            Err(DecodeError::Truncation)
        } else if !valid_utf8(body.take(len)) {
            Err(DecodeError::MalformedText)
        } else {
            Ok((body.skip(len), decode_utf8(body.take(len))))
        }
    }
}

/// The first `n` bytes, each read as a signed number.
pub open spec fn i8s_value(bytes: Seq<u8>, n: nat) -> Seq<i8> {
    Seq::new(n, |k: int| be_i8_value(bytes.skip(k)) as i8)
}

/// The first `n` groups of four bytes, each read as a signed number.
pub open spec fn i32s_value(bytes: Seq<u8>, n: nat) -> Seq<i32> {
    Seq::new(n, |k: int| be_i32_value(bytes.skip(4 * k)) as i32)
}

/// The first `n` groups of eight bytes, each read as a signed number.
pub open spec fn i64s_value(bytes: Seq<u8>, n: nat) -> Seq<i64> {
    Seq::new(n, |k: int| be_i64_value(bytes.skip(8 * k)) as i64)
}

/// The count at the head of an array or behind the element id of a list, and
/// what follows it. A count below one is refused.
pub open spec fn parse_count(bytes: Seq<u8>) -> Result<(Seq<u8>, nat), DecodeError> {
    if bytes.len() < 4 {
        Err(DecodeError::Truncation)
    } else if be_i32_value(bytes) < 1 {
        Err(DecodeError::StructuralViolation)
    } else {
        Ok((bytes.skip(4), be_i32_value(bytes) as nat))
    }
}

/// The payload of a value of the type `id` at the head of `bytes`, and what
/// follows it.
///
/// Wherever a parser goes on behind a value it has read, the definition
/// asks that the rest be shorter than the input. That always holds
/// (`lemma_parse_shortens`); it is there to show that the definition ends.
pub open spec fn parse_payload(id: u8, bytes: Seq<u8>) -> Result<(Seq<u8>, TagValue), DecodeError>
    decreases bytes.len(), 2int,
{
    if id == 1 {
        if bytes.len() < 1 {
            Err(DecodeError::Truncation)
        } else {
            Ok((bytes.skip(1), TagValue::Byte(be_i8_value(bytes) as i8)))
        }
    } else if id == 2 {
        if bytes.len() < 2 {
            Err(DecodeError::Truncation)
        } else {
            Ok((bytes.skip(2), TagValue::Short(be_i16_value(bytes) as i16)))
        }
    } else if id == 3 {
        if bytes.len() < 4 {
            Err(DecodeError::Truncation)
        } else {
            Ok((bytes.skip(4), TagValue::Int(be_i32_value(bytes) as i32)))
        }
    } else if id == 4 {
        if bytes.len() < 8 {
            Err(DecodeError::Truncation)
        } else {
            Ok((bytes.skip(8), TagValue::Long(be_i64_value(bytes) as i64)))
        }
    } else if id == 5 {
        if bytes.len() < 4 {
            Err(DecodeError::Truncation)
        } else {
            Ok((bytes.skip(4), TagValue::Float(be_u32_value(bytes) as u32)))
        }
    } else if id == 6 {
        if bytes.len() < 8 {
            Err(DecodeError::Truncation)
        } else {
            Ok((bytes.skip(8), TagValue::Double(be_u64_value(bytes) as u64)))
        }
    } else if id == 7 {
        match parse_count(bytes) {
            Err(e) => Err(e),
            Ok((body, n)) => if body.len() < n {
                Err(DecodeError::Truncation)
            } else {
                Ok((body.skip(n as int), TagValue::ByteArray(i8s_value(body, n))))
            },
        }
    } else if id == 8 {
        match parse_name(bytes) {
            Err(e) => Err(e),
            Ok((rest, s)) => Ok((rest, TagValue::Text(s))),
        }
    } else if id == 9 {
        if bytes.len() < 1 {
            Err(DecodeError::Truncation)
        } else {
            match parse_count(bytes.skip(1)) {
                Err(e) => Err(e),
                Ok((body, n)) => match parse_items(bytes[0], n, body) {
                    Err(e) => Err(e),
                    Ok((rest, items)) => Ok((rest, TagValue::List(items))),
                },
            }
        }
    } else if id == 10 {
        match parse_entries(bytes) {
            Err(e) => Err(e),
            Ok((rest, entries)) => Ok((rest, TagValue::Compound(collect_entries(entries)))),
        }
    } else if id == 11 {
        match parse_count(bytes) {
            Err(e) => Err(e),
            Ok((body, n)) => if body.len() < 4 * n {
                Err(DecodeError::Truncation)
            } else {
                Ok((body.skip(4 * n as int), TagValue::IntArray(i32s_value(body, n))))
            },
        }
    } else if id == 12 {
        match parse_count(bytes) {
            Err(e) => Err(e),
            Ok((body, n)) => if body.len() < 8 * n {
                Err(DecodeError::Truncation)
            } else {
                Ok((body.skip(8 * n as int), TagValue::LongArray(i64s_value(body, n))))
            },
        }
    } else {
        Err(DecodeError::UnknownTypeId)
    }
}

/// `n` payloads of the type `id`, one after the other, and what follows them.
pub open spec fn parse_items(id: u8, n: nat, bytes: Seq<u8>) -> Result<
    (Seq<u8>, Seq<TagValue>),
    DecodeError,
>
    decreases bytes.len(), 3int, n,
{
    if n == 0 {
        Ok((bytes, Seq::empty()))
    } else {
        match parse_payload(id, bytes) {
            Err(e) => Err(e),
            Ok((rest, first)) => if rest.len() < bytes.len() {
                match parse_items(id, (n - 1) as nat, rest) {
                    Err(e) => Err(e),
                    Ok((rest, others)) => Ok((rest, seq![first] + others)),
                }
            } else {
                Err(DecodeError::Truncation)
            },
        }
    }
}

/// One named value: a type id, a name, and the payload of that type.
pub open spec fn parse_named(bytes: Seq<u8>) -> Result<
    (Seq<u8>, (Seq<char>, TagValue)),
    DecodeError,
>
    decreases bytes.len(), 0int,
{
    if bytes.len() < 1 {
        Err(DecodeError::Truncation)
    } else {
        match parse_name(bytes.skip(1)) {
            Err(e) => Err(e),
            Ok((body, name)) => match parse_payload(bytes[0], body) {
                Err(e) => Err(e),
                Ok((rest, value)) => Ok((rest, (name, value))),
            },
        }
    }
}

/// The entries of a compound up to its terminator, in the order of the wire,
/// and what follows the terminator.
pub open spec fn parse_entries(bytes: Seq<u8>) -> Result<
    (Seq<u8>, Seq<(Seq<char>, TagValue)>),
    DecodeError,
>
    decreases bytes.len(), 1int,
{
    if bytes.len() < 1 {
        Err(DecodeError::Truncation)
    } else if bytes[0] == 0 {
        Ok((bytes.skip(1), Seq::empty()))
    } else {
        match parse_named(bytes) {
            Err(e) => Err(e),
            Ok((rest, first)) => if rest.len() < bytes.len() {
                match parse_entries(rest) {
                    Err(e) => Err(e),
                    Ok((rest, others)) => Ok((rest, seq![first] + others)),
                }
            } else {
                Err(DecodeError::Truncation)
            },
        }
    }
}

/// Whether an entry of that name is among `entries`.
pub open spec fn has_name(entries: Seq<(Seq<char>, TagValue)>, name: Seq<char>) -> bool {
    exists|i: int| 0 <= i < entries.len() && #[trigger] entries[i].0 == name
}

/// `entries` with `value` under `name`: in the place of the entry of that
/// name where there is one, else at the end.
pub open spec fn insert_entry(
    entries: Seq<(Seq<char>, TagValue)>,
    name: Seq<char>,
    value: TagValue,
) -> Seq<(Seq<char>, TagValue)> {
    if has_name(entries, name) {
        Seq::new(
            entries.len(),
            |i: int|
                if entries[i].0 == name {
                    (name, value)
                } else {
                    entries[i]
                },
        )
    } else {
        entries.push((name, value))
    }
}

/// The entries of a compound as they were read, made into a mapping: each
/// name once, in the place where it first stood, with the value that came
/// last.
pub open spec fn collect_entries(raw: Seq<(Seq<char>, TagValue)>) -> Seq<(Seq<char>, TagValue)>
    decreases raw.len(),
{
    if raw.len() == 0 {
        Seq::empty()
    } else {
        insert_entry(collect_entries(raw.drop_last()), raw.last().0, raw.last().1)
    }
}

/// The bytes of a document: its root as a named value.
pub open spec fn encode(doc: Document) -> Seq<u8> {
    tag_bytes(doc.root, true, true, Some(doc.name))
}

/// The named value at the head of `bytes`, as a document where its payload
/// is a compound and as `None` where it is not, and what follows it.
pub open spec fn parse_document(bytes: Seq<u8>) -> Result<(Seq<u8>, Option<Document>), DecodeError> {
    match parse_named(bytes) {
        Err(e) => Err(e),
        Ok((rest, (name, root))) => if root is Compound {
            Ok((rest, Some(Document { name, root })))
        } else {
            Ok((rest, None))
        },
    }
}

/// The document at the head of `bytes`. A root that is not a compound is a
/// structural violation; what follows the document is ignored.
pub open spec fn decode(bytes: Seq<u8>) -> Result<Document, DecodeError> {
    match parse_document(bytes) {
        Err(e) => Err(e),
        Ok((_, Some(d))) => Ok(d),
        Ok((_, None)) => Err(DecodeError::StructuralViolation),
    }
}

/// The value that stands under `name`: that of the last entry of that name.
pub open spec fn last_value(entries: Seq<(Seq<char>, TagValue)>, name: Seq<char>) -> Option<
    TagValue,
>
    decreases entries.len(),
{
    if entries.len() == 0 {
        None
    } else if entries.last().0 == name {
        Some(entries.last().1)
    } else {
        last_value(entries.drop_last(), name)
    }
}

/// The result of a parser of sequences, with `front` before what it read.
pub open spec fn with_front<T>(
    front: Seq<T>,
    r: Result<(Seq<u8>, Seq<T>), DecodeError>,
) -> Result<(Seq<u8>, Seq<T>), DecodeError> {
    match r {
        Ok((rest, items)) => Ok((rest, front + items)),
        Err(e) => Err(e),
    }
}

// ---------------------------------------------------------------------------
// Facts about parsing
// ---------------------------------------------------------------------------

/// A payload that was read took at least one byte.
pub proof fn lemma_parse_payload_shortens(id: u8, bytes: Seq<u8>)
    ensures
        parse_payload(id, bytes) matches Ok((rest, _)) ==> rest.len() < bytes.len(),
    decreases bytes.len(), 2int,
{
    if id == 9 {
        if bytes.len() >= 1 {
            if let Ok((body, n)) = parse_count(bytes.skip(1)) {
                lemma_parse_items_shortens(bytes[0], n, body);
            }
        }
    } else if id == 10 {
        lemma_parse_entries_shortens(bytes);
    }
}

/// The payloads of a list that were read took no less than nothing.
pub proof fn lemma_parse_items_shortens(id: u8, n: nat, bytes: Seq<u8>)
    ensures
        parse_items(id, n, bytes) matches Ok((rest, _)) ==> rest.len() <= bytes.len(),
    decreases bytes.len(), 3int, n,
{
    if n > 0 {
        lemma_parse_payload_shortens(id, bytes);
        if let Ok((rest, _)) = parse_payload(id, bytes) {
            lemma_parse_items_shortens(id, (n - 1) as nat, rest);
        }
    }
}

/// A named value that was read took at least four bytes.
pub proof fn lemma_parse_named_shortens(bytes: Seq<u8>)
    ensures
        parse_named(bytes) matches Ok((rest, _)) ==> rest.len() + 4 <= bytes.len(),
    decreases bytes.len(), 0int,
{
    if bytes.len() >= 1 {
        if let Ok((body, _)) = parse_name(bytes.skip(1)) {
            lemma_parse_payload_shortens(bytes[0], body);
        }
    }
}

/// The entries of a compound that were read took at least the terminator.
pub proof fn lemma_parse_entries_shortens(bytes: Seq<u8>)
    ensures
        parse_entries(bytes) matches Ok((rest, _)) ==> rest.len() < bytes.len(),
    decreases bytes.len(), 1int,
{
    if bytes.len() >= 1 && bytes[0] != 0 {
        lemma_parse_named_shortens(bytes);
        if let Ok((rest, _)) = parse_named(bytes) {
            lemma_parse_entries_shortens(rest);
        }
    }
}

/// Reading `n` payloads is reading one and then `n - 1`.
pub proof fn lemma_parse_items_step(front: Seq<TagValue>, id: u8, n: nat, bytes: Seq<u8>)
    requires
        n > 0,
        parse_payload(id, bytes) is Ok,
    ensures
        with_front(front, parse_items(id, n, bytes)) == with_front(
            front.push(parse_payload(id, bytes)->Ok_0.1),
            parse_items(id, (n - 1) as nat, parse_payload(id, bytes)->Ok_0.0),
        ),
{
    lemma_parse_payload_shortens(id, bytes);
    let (rest, first) = parse_payload(id, bytes)->Ok_0;
    match parse_items(id, (n - 1) as nat, rest) {
        Ok((_, others)) => {
            assert(front + (seq![first] + others) =~= front.push(first) + others);
        },
        Err(_) => {},
    }
}

/// Reading the entries of a compound is reading one and then the others.
pub proof fn lemma_parse_entries_step(front: Seq<(Seq<char>, TagValue)>, bytes: Seq<u8>)
    requires
        bytes.len() >= 1,
        bytes[0] != 0,
        parse_named(bytes) is Ok,
    ensures
        with_front(front, parse_entries(bytes)) == with_front(
            front.push(parse_named(bytes)->Ok_0.1),
            parse_entries(parse_named(bytes)->Ok_0.0),
        ),
{
    lemma_parse_named_shortens(bytes);
    let (rest, first) = parse_named(bytes)->Ok_0;
    match parse_entries(rest) {
        Ok((_, others)) => {
            assert(front + (seq![first] + others) =~= front.push(first) + others);
        },
        Err(_) => {},
    }
}

// ---------------------------------------------------------------------------
// Facts about the bytes of lists and compounds
// ---------------------------------------------------------------------------

/// The bytes of a list with one more element at its end.
pub proof fn lemma_items_bytes_push(items: Seq<TagValue>, last: TagValue)
    ensures
        items_bytes(items.push(last)) == items_bytes(items) + payload_bytes(last),
    decreases items.len(),
{
    if items.len() == 0 {
        assert(items.push(last).drop_first() =~= Seq::<TagValue>::empty());
        assert(items_bytes(Seq::<TagValue>::empty()) =~= Seq::<u8>::empty());
    } else {
        lemma_items_bytes_push(items.drop_first(), last);
        assert(items.push(last).drop_first() =~= items.drop_first().push(last));
    }
}

/// The bytes of the entries of a compound with one more entry at their end.
pub proof fn lemma_entries_bytes_push(
    entries: Seq<(Seq<char>, TagValue)>,
    last: (Seq<char>, TagValue),
)
    ensures
        entries_bytes(entries.push(last)) == entries_bytes(entries) + entry_bytes(last.0, last.1),
    decreases entries.len(),
{
    if entries.len() == 0 {
        assert(entries.push(last).drop_first() =~= Seq::<(Seq<char>, TagValue)>::empty());
        assert(entries_bytes(Seq::<(Seq<char>, TagValue)>::empty()) =~= Seq::<u8>::empty());
    } else {
        lemma_entries_bytes_push(entries.drop_first(), last);
        assert(entries.push(last).drop_first() =~= entries.drop_first().push(last));
    }
}

/// An element that cannot be written among the first `k` decides for the
/// whole list.
pub proof fn lemma_first_item_error_prefix(items: Seq<TagValue>, k: int)
    requires
        0 <= k <= items.len(),
        first_item_error(items.take(k)) is Some,
    ensures
        first_item_error(items) == first_item_error(items.take(k)),
    decreases items.len(),
{
    if k == items.len() {
        assert(items.take(k) =~= items);
    } else {
        assert(items.drop_last().take(k) =~= items.take(k));
        lemma_first_item_error_prefix(items.drop_last(), k);
    }
}

/// An entry that cannot be written among the first `k` decides for the
/// whole compound.
pub proof fn lemma_first_entry_error_prefix(entries: Seq<(Seq<char>, TagValue)>, k: int)
    requires
        0 <= k <= entries.len(),
        first_entry_error(entries.take(k)) is Some,
    ensures
        first_entry_error(entries) == first_entry_error(entries.take(k)),
    decreases entries.len(),
{
    if k == entries.len() {
        assert(entries.take(k) =~= entries);
    } else {
        assert(entries.drop_last().take(k) =~= entries.take(k));
        lemma_first_entry_error_prefix(entries.drop_last(), k);
    }
}

} // verus!

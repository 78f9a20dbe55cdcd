//! What holds of reading and writing together.

use crate::endian::{
    be_bytes_2, be_bytes_4, be_bytes_8, be_i32_value, be_i64_value, be_i8_value, be_u16_value,
    lemma_signed_round_trip, lemma_unsigned_round_trip,
};
use crate::error::{DecodeError, EncodeError};
use crate::file::Document;
use crate::wire::{
    collect_entries, decode, encode, encode_error, entries_bytes, entry_bytes, first_entry_error,
    first_item_error, fits_wire, has_name, i32s_bytes, i32s_value, i64s_bytes, i64s_value,
    i8s_bytes, i8s_value, insert_entry, items_bytes, last_value, lemma_parse_named_shortens,
    lemma_parse_payload_shortens, name_bytes, name_fits_wire, parse_count, parse_entries,
    parse_items, parse_name, parse_named, parse_payload, payload_bytes,
};
use crate::{names_distinct, type_id, TagValue};
use vstd::prelude::*;
use vstd::utf8::{
    decode_utf8_encode_utf8, encode_utf8, encode_utf8_decode_utf8, encode_utf8_valid_utf8,
    valid_utf8,
};

verus! {

/// A name that was written is read back as it was, whatever follows it,
/// where its UTF-8 bytes are at most 65535; the empty name is among them.
pub proof fn name_round_trip(s: Seq<char>, tail: Seq<u8>)
    requires
        name_fits_wire(s),
    ensures
        parse_name(name_bytes(s) + tail) == Ok::<(Seq<u8>, Seq<char>), DecodeError>((tail, s)),
{
    let text = encode_utf8(s);
    let bytes = name_bytes(s) + tail;
    lemma_unsigned_round_trip(text.len() as int, text + tail);
    assert(bytes.skip(2).take(text.len() as int) =~= text);
    assert(bytes.skip(2).skip(text.len() as int) =~= tail);
    encode_utf8_valid_utf8(s);
    encode_utf8_decode_utf8(s);
}

/// A count from one to 2^31 - 1 that was written is read back.
proof fn lemma_count_round_trip(n: int, tail: Seq<u8>)
    requires
        1 <= n <= 0x7FFF_FFFF,
    ensures
        parse_count(be_bytes_4(n) + tail) == Ok::<(Seq<u8>, nat), DecodeError>((tail, n as nat)),
{
    lemma_signed_round_trip(n, tail);
    assert((be_bytes_4(n) + tail).skip(4) =~= tail);
}

/// The elements of a byte array that were written are read back.
proof fn lemma_i8s_round_trip(s: Seq<i8>, tail: Seq<u8>)
    ensures
        i8s_bytes(s).len() == s.len(),
        i8s_value(i8s_bytes(s) + tail, s.len()) == s,
        (i8s_bytes(s) + tail).skip(s.len() as int) == tail,
{
    let bytes = i8s_bytes(s) + tail;
    assert forall|k: int| 0 <= k < s.len() implies be_i8_value(bytes.skip(k)) == s[k] by {
        lemma_signed_round_trip(s[k] as int, Seq::empty());
    }
}

/// The `k`th element of an int array that was written is read back.
proof fn lemma_i32s_element(s: Seq<i32>, tail: Seq<u8>, k: int)
    requires
        0 <= k < s.len(),
    ensures
        be_i32_value((i32s_bytes(s) + tail).skip(4 * k)) == s[k],
{
    let bytes = i32s_bytes(s) + tail;
    let b = bytes.skip(4 * k);
    let e = be_bytes_4(s[k] as int) + Seq::<u8>::empty();
    assert forall|j: int| 0 <= j < 4 implies b[j] == e[j] by {}
    assert(be_i32_value(e) == s[k]) by {
        lemma_signed_round_trip(s[k] as int, Seq::empty());
    }
}

/// The elements of an int array that were written are read back.
proof fn lemma_i32s_round_trip(s: Seq<i32>, tail: Seq<u8>)
    ensures
        i32s_bytes(s).len() == 4 * s.len(),
        i32s_value(i32s_bytes(s) + tail, s.len()) == s,
        (i32s_bytes(s) + tail).skip(4 * s.len() as int) == tail,
{
    let bytes = i32s_bytes(s) + tail;
    assert forall|k: int| 0 <= k < s.len() implies be_i32_value(bytes.skip(4 * k)) == s[k] by {
        lemma_i32s_element(s, tail, k);
    }
}

/// The `k`th element of a long array that was written is read back.
proof fn lemma_i64s_element(s: Seq<i64>, tail: Seq<u8>, k: int)
    requires
        0 <= k < s.len(),
    ensures
        be_i64_value((i64s_bytes(s) + tail).skip(8 * k)) == s[k],
{
    let bytes = i64s_bytes(s) + tail;
    let b = bytes.skip(8 * k);
    let e = be_bytes_8(s[k] as int) + Seq::<u8>::empty();
    assert forall|j: int| 0 <= j < 8 implies b[j] == e[j] by {}
    assert(be_i64_value(e) == s[k]) by {
        lemma_signed_round_trip(s[k] as int, Seq::empty());
    }
}

/// The elements of a long array that were written are read back.
proof fn lemma_i64s_round_trip(s: Seq<i64>, tail: Seq<u8>)
    ensures
        i64s_bytes(s).len() == 8 * s.len(),
        i64s_value(i64s_bytes(s) + tail, s.len()) == s,
        (i64s_bytes(s) + tail).skip(8 * s.len() as int) == tail,
{
    let bytes = i64s_bytes(s) + tail;
    assert forall|k: int| 0 <= k < s.len() implies be_i64_value(bytes.skip(8 * k)) == s[k] by {
        lemma_i64s_element(s, tail, k);
    }
}

/// Entries whose names are distinct are a mapping already.
proof fn lemma_collect_distinct(entries: Seq<(Seq<char>, TagValue)>)
    requires
        names_distinct(entries),
    ensures
        collect_entries(entries) == entries,
    decreases entries.len(),
{
    if entries.len() > 0 {
        let front = entries.drop_last();
        lemma_collect_distinct(front);
        assert(!has_name(front, entries.last().0)) by {
            if has_name(front, entries.last().0) {
                let i = choose|i: int| 0 <= i < front.len() && #[trigger] front[i].0 == entries.last().0;
            }
        }
    }
}

/// Joining three sequences gives the same whichever two are joined first.
proof fn lemma_concat_assoc(a: Seq<u8>, b: Seq<u8>, c: Seq<u8>)
    ensures
        (a + b) + c == a + (b + c),
{
}

/// The payload of a value that holds no other value is read back as the
/// value, whatever follows it.
proof fn lemma_flat_round_trip(t: TagValue, tail: Seq<u8>)
    requires
        !(t is End) && !(t is List) && !(t is Compound),
        fits_wire(t),
    ensures
        parse_payload(type_id(t), payload_bytes(t) + tail) == Ok::<
            (Seq<u8>, TagValue),
            DecodeError,
        >((tail, t)),
{
    let bytes = payload_bytes(t) + tail;
    match t {
        TagValue::Byte(v) => {
            lemma_signed_round_trip(v as int, tail);
            assert(bytes.skip(1) =~= tail);
        },
        TagValue::Short(v) => {
            lemma_signed_round_trip(v as int, tail);
            assert(bytes.skip(2) =~= tail);
        },
        TagValue::Int(v) => {
            lemma_signed_round_trip(v as int, tail);
            assert(bytes.skip(4) =~= tail);
        },
        TagValue::Long(v) => {
            lemma_signed_round_trip(v as int, tail);
            assert(bytes.skip(8) =~= tail);
        },
        TagValue::Float(bits) => {
            lemma_unsigned_round_trip(bits as int, tail);
            assert(bytes.skip(4) =~= tail);
        },
        TagValue::Double(bits) => {
            lemma_unsigned_round_trip(bits as int, tail);
            assert(bytes.skip(8) =~= tail);
        },
        TagValue::ByteArray(s) => {
            lemma_concat_assoc(be_bytes_4(s.len() as int), i8s_bytes(s), tail);
            lemma_count_round_trip(s.len() as int, i8s_bytes(s) + tail);
            lemma_i8s_round_trip(s, tail);
        },
        TagValue::Text(s) => {
            name_round_trip(s, tail);
        },
        TagValue::IntArray(s) => {
            lemma_concat_assoc(be_bytes_4(s.len() as int), i32s_bytes(s), tail);
            lemma_count_round_trip(s.len() as int, i32s_bytes(s) + tail);
            lemma_i32s_round_trip(s, tail);
        },
        TagValue::LongArray(s) => {
            lemma_concat_assoc(be_bytes_4(s.len() as int), i64s_bytes(s), tail);
            lemma_count_round_trip(s.len() as int, i64s_bytes(s) + tail);
            lemma_i64s_round_trip(s, tail);
        },
        _ => {},
    }
}

/// The payload of a value that was written is read back as the value,
/// whatever follows it.
proof fn lemma_payload_round_trip(t: TagValue, tail: Seq<u8>)
    requires
        t.well_formed(),
        fits_wire(t),
    ensures
        parse_payload(type_id(t), payload_bytes(t) + tail) == Ok::<
            (Seq<u8>, TagValue),
            DecodeError,
        >((tail, t)),
    decreases t, 0int,
{
    match t {
        TagValue::End => {},
        TagValue::List(items) => {
            lemma_list_round_trip(items, tail);
        },
        TagValue::Compound(entries) => {
            lemma_compound_round_trip(entries, tail);
        },
        _ => {
            lemma_flat_round_trip(t, tail);
        },
    }
}

/// The payload of a list that was written is read back as the list.
proof fn lemma_list_round_trip(items: Seq<TagValue>, tail: Seq<u8>)
    requires
        TagValue::List(items).well_formed(),
        fits_wire(TagValue::List(items)),
    ensures
        parse_payload(9, payload_bytes(TagValue::List(items)) + tail) == Ok::<
            (Seq<u8>, TagValue),
            DecodeError,
        >((tail, TagValue::List(items))),
    decreases items, 1int,
{
    let id = type_id(items[0]);
    let count = be_bytes_4(items.len() as int);
    let body = items_bytes(items) + tail;
    let bytes = payload_bytes(TagValue::List(items)) + tail;
    assert(bytes == seq![id] + (count + body)) by {
        lemma_concat_assoc(seq![id] + count, items_bytes(items), tail);
        lemma_concat_assoc(seq![id], count, body);
    }
    assert(bytes.skip(1) == count + body);
    assert(parse_count(bytes.skip(1)) == Ok::<(Seq<u8>, nat), DecodeError>((body, items.len())))
        by {
        lemma_count_round_trip(items.len() as int, body);
    }
    assert(parse_items(id, items.len(), body) == Ok::<(Seq<u8>, Seq<TagValue>), DecodeError>(
        (tail, items),
    )) by {
        lemma_items_round_trip(items, id, tail);
    }
}

/// The payload of a compound that was written is read back as the compound.
proof fn lemma_compound_round_trip(entries: Seq<(Seq<char>, TagValue)>, tail: Seq<u8>)
    requires
        TagValue::Compound(entries).well_formed(),
        fits_wire(TagValue::Compound(entries)),
    ensures
        parse_payload(10, payload_bytes(TagValue::Compound(entries)) + tail) == Ok::<
            (Seq<u8>, TagValue),
            DecodeError,
        >((tail, TagValue::Compound(entries))),
    decreases entries, 1int,
{
    let bytes = payload_bytes(TagValue::Compound(entries)) + tail;
    assert(bytes == entries_bytes(entries) + (seq![0u8] + tail)) by {
        lemma_concat_assoc(entries_bytes(entries), seq![0u8], tail);
    }
    assert(parse_entries(bytes) == Ok::<(Seq<u8>, Seq<(Seq<char>, TagValue)>), DecodeError>(
        (tail, entries),
    )) by {
        lemma_entries_round_trip(entries, tail);
    }
    lemma_collect_distinct(entries);
}

/// The payloads of a list that were written are read back as its elements.
proof fn lemma_items_round_trip(items: Seq<TagValue>, id: u8, tail: Seq<u8>)
    requires
        forall|i: int| 0 <= i < items.len() ==> (#[trigger] items[i]).well_formed(),
        forall|i: int| 0 <= i < items.len() ==> fits_wire(#[trigger] items[i]),
        forall|i: int| 0 <= i < items.len() ==> type_id(#[trigger] items[i]) == id,
    ensures
        parse_items(id, items.len(), items_bytes(items) + tail) == Ok::<
            (Seq<u8>, Seq<TagValue>),
            DecodeError,
        >((tail, items)),
    decreases items, 0int,
{
    let bytes = items_bytes(items) + tail;
    if items.len() == 0 {
        assert(items =~= Seq::<TagValue>::empty());
    } else {
        let first = items[0];
        let others = items.drop_first();
        let after = items_bytes(others) + tail;
        assert(bytes == payload_bytes(first) + after) by {
            lemma_concat_assoc(payload_bytes(first), items_bytes(others), tail);
        }
        assert(parse_payload(id, bytes) == Ok::<(Seq<u8>, TagValue), DecodeError>((after, first)))
            by {
            lemma_payload_round_trip(first, after);
        }
        assert(after.len() < bytes.len()) by {
            lemma_parse_payload_shortens(id, bytes);
        }
        assert(parse_items(id, others.len(), after) == Ok::<
            (Seq<u8>, Seq<TagValue>),
            DecodeError,
        >((tail, others))) by {
            assert forall|i: int| 0 <= i < others.len() implies (#[trigger] others[i]).well_formed()
                && fits_wire(others[i]) && type_id(others[i]) == id by {}
            lemma_items_round_trip(others, id, tail);
        }
        assert(seq![first] + others == items);
    }
}

/// The entries of a compound that were written, and its terminator, are
/// read back as the entries.
proof fn lemma_entries_round_trip(entries: Seq<(Seq<char>, TagValue)>, tail: Seq<u8>)
    requires
        forall|i: int| 0 <= i < entries.len() ==> (#[trigger] entries[i]).1.well_formed(),
        forall|i: int|
            0 <= i < entries.len() ==> name_fits_wire((#[trigger] entries[i]).0) && fits_wire(
                entries[i].1,
            ),
    ensures
        parse_entries(entries_bytes(entries) + (seq![0u8] + tail)) == Ok::<
            (Seq<u8>, Seq<(Seq<char>, TagValue)>),
            DecodeError,
        >((tail, entries)),
    decreases entries, 0int,
{
    let bytes = entries_bytes(entries) + (seq![0u8] + tail);
    if entries.len() == 0 {
        assert(bytes.skip(1) =~= tail);
        assert(entries =~= Seq::<(Seq<char>, TagValue)>::empty());
    } else {
        let first = entries[0];
        let others = entries.drop_first();
        let after = entries_bytes(others) + (seq![0u8] + tail);
        assert(bytes == entry_bytes(first.0, first.1) + after) by {
            lemma_concat_assoc(
                entry_bytes(first.0, first.1),
                entries_bytes(others),
                seq![0u8] + tail,
            );
        }
        assert(parse_named(bytes) == Ok::<(Seq<u8>, (Seq<char>, TagValue)), DecodeError>(
            (after, first),
        ) && bytes[0] != 0) by {
            lemma_named_round_trip(first.0, first.1, after);
        }
        assert(after.len() < bytes.len()) by {
            lemma_parse_named_shortens(bytes);
        }
        assert(parse_entries(after) == Ok::<(Seq<u8>, Seq<(Seq<char>, TagValue)>), DecodeError>(
            (tail, others),
        )) by {
            assert forall|i: int| 0 <= i < others.len() implies (
            #[trigger] others[i]).1.well_formed() && name_fits_wire(others[i].0) && fits_wire(
                others[i].1,
            ) by {}
            lemma_entries_round_trip(others, tail);
        }
        assert(seq![first] + others == entries);
    }
}

/// A named value that was written is read back, whatever follows it.
proof fn lemma_named_round_trip(name: Seq<char>, value: TagValue, tail: Seq<u8>)
    requires
        name_fits_wire(name),
        value.well_formed(),
        fits_wire(value),
    ensures
        (entry_bytes(name, value) + tail)[0] == type_id(value),
        1 <= type_id(value) <= 12,
        parse_named(entry_bytes(name, value) + tail) == Ok::<
            (Seq<u8>, (Seq<char>, TagValue)),
            DecodeError,
        >((tail, (name, value))),
    decreases value, 1int,
{
    let bytes = entry_bytes(name, value) + tail;
    let body = payload_bytes(value) + tail;
    assert(bytes == seq![type_id(value)] + (name_bytes(name) + body)) by {
        lemma_concat_assoc(seq![type_id(value)] + name_bytes(name), payload_bytes(value), tail);
        lemma_concat_assoc(seq![type_id(value)], name_bytes(name), body);
    }
    assert(bytes.skip(1) == name_bytes(name) + body);
    assert(parse_name(bytes.skip(1)) == Ok::<(Seq<u8>, Seq<char>), DecodeError>((body, name)))
        by {
        name_round_trip(name, body);
    }
    assert(parse_payload(type_id(value), body) == Ok::<(Seq<u8>, TagValue), DecodeError>(
        (tail, value),
    )) by {
        lemma_payload_round_trip(value, tail);
    }
}

/// Reading the payload that a value was written with, under the type id of
/// the value, gives the value back and leaves what followed it: for every
/// well-formed value that the wire can hold.
pub proof fn payload_round_trip(t: TagValue, tail: Seq<u8>)
    requires
        t.well_formed(),
        fits_wire(t),
    ensures
        1 <= type_id(t) <= 12,
        parse_payload(type_id(t), payload_bytes(t) + tail) == Ok::<
            (Seq<u8>, TagValue),
            DecodeError,
        >((tail, t)),
{
    lemma_payload_round_trip(t, tail);
}

/// A payload is read as a value of the type that it was asked for: each type
/// id from 1 to 12 stands for one variant, and each variant but the
/// terminator for one of these ids.
pub proof fn type_id_of_payload(id: u8, bytes: Seq<u8>)
    ensures
        parse_payload(id, bytes) matches Ok((_, t)) ==> type_id(t) == id && 1 <= id <= 12,
{
}

/// Decoding the bytes of a document gives the document back: for every
/// well-formed document that the wire can hold. Such a document can always
/// be encoded.
pub proof fn round_trip(d: Document)
    requires
        d.well_formed(),
        d.fits_wire(),
    ensures
        encode_error(d.root) is None,
        decode(encode(d)) == Ok::<Document, DecodeError>(d),
{
    well_formed_is_encodable(d.root);
    let tail = Seq::<u8>::empty();
    lemma_named_round_trip(d.name, d.root, tail);
}

/// Every well-formed value can be encoded.
pub proof fn well_formed_is_encodable(t: TagValue)
    requires
        t.well_formed(),
    ensures
        encode_error(t) is None,
    decreases t,
{
    match t {
        TagValue::List(items) => {
            lemma_items_encodable(items);
        },
        TagValue::Compound(entries) => {
            lemma_entries_encodable(entries);
        },
        _ => {},
    }
}

/// Well-formed elements can all be encoded.
proof fn lemma_items_encodable(items: Seq<TagValue>)
    requires
        forall|i: int| 0 <= i < items.len() ==> (#[trigger] items[i]).well_formed(),
    ensures
        first_item_error(items) is None,
    decreases items,
{
    if items.len() > 0 {
        let front = items.drop_last();
        assert forall|i: int| 0 <= i < front.len() implies (#[trigger] front[i]).well_formed() by {}
        lemma_items_encodable(front);
        well_formed_is_encodable(items.last());
    }
}

/// Well-formed entries can all be encoded.
proof fn lemma_entries_encodable(entries: Seq<(Seq<char>, TagValue)>)
    requires
        forall|i: int| 0 <= i < entries.len() ==> (#[trigger] entries[i]).1.well_formed(),
    ensures
        first_entry_error(entries) is None,
    decreases entries,
{
    if entries.len() > 0 {
        let front = entries.drop_last();
        assert forall|i: int| 0 <= i < front.len() implies (#[trigger] front[i]).1.well_formed() by {}
        lemma_entries_encodable(front);
        well_formed_is_encodable(entries.last().1);
    }
}

/// The first `k` of two joined sequences.
proof fn lemma_take_concat(a: Seq<u8>, b: Seq<u8>, k: int)
    requires
        0 <= k <= a.len() + b.len(),
    ensures
        k <= a.len() ==> (a + b).take(k) == a.take(k),
        k >= a.len() ==> (a + b).take(k) == a + b.take(k - a.len()),
{
    if k <= a.len() {
    }
    if k >= a.len() {
    }
}

/// A name that was written and then cut short is refused as truncated.
proof fn lemma_name_truncated(s: Seq<char>, k: int)
    requires
        name_fits_wire(s),
        0 <= k < name_bytes(s).len(),
    ensures
        parse_name(name_bytes(s).take(k)) == Err::<(Seq<u8>, Seq<char>), DecodeError>(
            DecodeError::Truncation,
        ),
{
    let text = encode_utf8(s);
    if k >= 2 {
        lemma_take_concat(be_bytes_2(text.len() as int), text, k);
        lemma_unsigned_round_trip(text.len() as int, text.take(k - 2));
    }
}

/// The payload of a value that holds no other value, written and then cut
/// short, is refused as truncated.
proof fn lemma_flat_truncated(t: TagValue, k: int)
    requires
        !(t is End) && !(t is List) && !(t is Compound),
        fits_wire(t),
        0 <= k < payload_bytes(t).len(),
    ensures
        parse_payload(type_id(t), payload_bytes(t).take(k)) == Err::<
            (Seq<u8>, TagValue),
            DecodeError,
        >(DecodeError::Truncation),
{
    match t {
        TagValue::ByteArray(s) => {
            if k >= 4 {
                lemma_take_concat(be_bytes_4(s.len() as int), i8s_bytes(s), k);
                lemma_count_round_trip(s.len() as int, i8s_bytes(s).take(k - 4));
            }
        },
        TagValue::Text(s) => {
            lemma_name_truncated(s, k);
        },
        TagValue::IntArray(s) => {
            if k >= 4 {
                lemma_take_concat(be_bytes_4(s.len() as int), i32s_bytes(s), k);
                lemma_count_round_trip(s.len() as int, i32s_bytes(s).take(k - 4));
            }
        },
        TagValue::LongArray(s) => {
            if k >= 4 {
                lemma_take_concat(be_bytes_4(s.len() as int), i64s_bytes(s), k);
                lemma_count_round_trip(s.len() as int, i64s_bytes(s).take(k - 4));
            }
        },
        _ => {},
    }
}

/// The payload of a value, written and then cut short, is refused as
/// truncated.
proof fn lemma_payload_truncated(t: TagValue, k: int)
    requires
        t.well_formed(),
        fits_wire(t),
        0 <= k < payload_bytes(t).len(),
    ensures
        parse_payload(type_id(t), payload_bytes(t).take(k)) == Err::<
            (Seq<u8>, TagValue),
            DecodeError,
        >(DecodeError::Truncation),
    decreases t, 0int,
{
    match t {
        TagValue::End => {},
        TagValue::List(items) => {
            lemma_list_truncated(items, k);
        },
        TagValue::Compound(entries) => {
            let bytes = payload_bytes(t).take(k);
            assert(bytes == entries_bytes(entries).take(k)) by {
                lemma_take_concat(entries_bytes(entries), seq![0u8], k);
            }
            lemma_entries_truncated(entries, k);
        },
        _ => {
            lemma_flat_truncated(t, k);
        },
    }
}

/// The payload of a list, written and then cut short, is refused as
/// truncated.
proof fn lemma_list_truncated(items: Seq<TagValue>, k: int)
    requires
        TagValue::List(items).well_formed(),
        fits_wire(TagValue::List(items)),
        0 <= k < payload_bytes(TagValue::List(items)).len(),
    ensures
        parse_payload(9, payload_bytes(TagValue::List(items)).take(k)) == Err::<
            (Seq<u8>, TagValue),
            DecodeError,
        >(DecodeError::Truncation),
    decreases items, 1int,
{
    let id = type_id(items[0]);
    let count = be_bytes_4(items.len() as int);
    let whole = payload_bytes(TagValue::List(items));
    let bytes = whole.take(k);
    assert(whole == seq![id] + (count + items_bytes(items))) by {
        lemma_concat_assoc(seq![id], count, items_bytes(items));
    }
    if k >= 1 {
        assert(bytes == seq![id] + (count + items_bytes(items)).take(k - 1)) by {
            lemma_take_concat(seq![id], count + items_bytes(items), k);
        }
        if k >= 5 {
            let body = items_bytes(items).take(k - 5);
            assert(bytes.skip(1) == count + body) by {
                lemma_take_concat(count, items_bytes(items), k - 1);
            }
            assert(parse_count(bytes.skip(1)) == Ok::<(Seq<u8>, nat), DecodeError>(
                (body, items.len()),
            )) by {
                lemma_count_round_trip(items.len() as int, body);
            }
            lemma_items_truncated(items, id, k - 5);
        }
    }
}

/// The payloads of a list, written and then cut short, are refused as
/// truncated.
proof fn lemma_items_truncated(items: Seq<TagValue>, id: u8, k: int)
    requires
        forall|i: int| 0 <= i < items.len() ==> (#[trigger] items[i]).well_formed(),
        forall|i: int| 0 <= i < items.len() ==> fits_wire(#[trigger] items[i]),
        forall|i: int| 0 <= i < items.len() ==> type_id(#[trigger] items[i]) == id,
        0 <= k < items_bytes(items).len(),
    ensures
        parse_items(id, items.len(), items_bytes(items).take(k)) == Err::<
            (Seq<u8>, Seq<TagValue>),
            DecodeError,
        >(DecodeError::Truncation),
    decreases items, 0int,
{
    let bytes = items_bytes(items).take(k);
    let first = items[0];
    let others = items.drop_first();
    let head = payload_bytes(first);
    lemma_take_concat(head, items_bytes(others), k);
    if k < head.len() {
        assert(parse_payload(id, bytes) == Err::<(Seq<u8>, TagValue), DecodeError>(
            DecodeError::Truncation,
        )) by {
            lemma_payload_truncated(first, k);
        }
    } else {
        let after = items_bytes(others).take(k - head.len());
        assert(parse_payload(id, bytes) == Ok::<(Seq<u8>, TagValue), DecodeError>((after, first)))
            by {
            lemma_payload_round_trip(first, after);
        }
        assert(after.len() < bytes.len()) by {
            lemma_parse_payload_shortens(id, bytes);
        }
        assert(parse_items(id, others.len(), after) == Err::<
            (Seq<u8>, Seq<TagValue>),
            DecodeError,
        >(DecodeError::Truncation)) by {
            assert forall|i: int| 0 <= i < others.len() implies (#[trigger] others[i]).well_formed()
                && fits_wire(others[i]) && type_id(others[i]) == id by {}
            lemma_items_truncated(others, id, k - head.len());
        }
    }
}

/// The entries of a compound, written and then cut short, are refused as
/// truncated, also where only the terminator is missing.
proof fn lemma_entries_truncated(entries: Seq<(Seq<char>, TagValue)>, k: int)
    requires
        forall|i: int| 0 <= i < entries.len() ==> (#[trigger] entries[i]).1.well_formed(),
        forall|i: int|
            0 <= i < entries.len() ==> name_fits_wire((#[trigger] entries[i]).0) && fits_wire(
                entries[i].1,
            ),
        0 <= k <= entries_bytes(entries).len(),
    ensures
        parse_entries(entries_bytes(entries).take(k)) == Err::<
            (Seq<u8>, Seq<(Seq<char>, TagValue)>),
            DecodeError,
        >(DecodeError::Truncation),
    decreases entries, 0int,
{
    let bytes = entries_bytes(entries).take(k);
    if entries.len() > 0 && k > 0 {
        let first = entries[0];
        let others = entries.drop_first();
        let head = entry_bytes(first.0, first.1);
        lemma_take_concat(head, entries_bytes(others), k);
        if k < head.len() {
            assert(parse_named(bytes) == Err::<(Seq<u8>, (Seq<char>, TagValue)), DecodeError>(
                DecodeError::Truncation,
            )) by {
                lemma_named_truncated(first.0, first.1, k);
            }
        } else {
            let after = entries_bytes(others).take(k - head.len());
            assert(parse_named(bytes) == Ok::<(Seq<u8>, (Seq<char>, TagValue)), DecodeError>(
                (after, first),
            ) && bytes[0] != 0) by {
                lemma_named_round_trip(first.0, first.1, after);
            }
            assert(after.len() < bytes.len()) by {
                lemma_parse_named_shortens(bytes);
            }
            assert(parse_entries(after) == Err::<
                (Seq<u8>, Seq<(Seq<char>, TagValue)>),
                DecodeError,
            >(DecodeError::Truncation)) by {
                assert forall|i: int| 0 <= i < others.len() implies (
                #[trigger] others[i]).1.well_formed() && name_fits_wire(others[i].0) && fits_wire(
                    others[i].1,
                ) by {}
                lemma_entries_truncated(others, k - head.len());
            }
        }
    }
}

/// A named value, written and then cut short, is refused as truncated.
proof fn lemma_named_truncated(name: Seq<char>, value: TagValue, k: int)
    requires
        name_fits_wire(name),
        value.well_formed(),
        fits_wire(value),
        0 <= k < entry_bytes(name, value).len(),
    ensures
        parse_named(entry_bytes(name, value).take(k)) == Err::<
            (Seq<u8>, (Seq<char>, TagValue)),
            DecodeError,
        >(DecodeError::Truncation),
    decreases value, 1int,
{
    let id = type_id(value);
    let whole = entry_bytes(name, value);
    let bytes = whole.take(k);
    assert(whole == seq![id] + (name_bytes(name) + payload_bytes(value))) by {
        lemma_concat_assoc(seq![id], name_bytes(name), payload_bytes(value));
    }
    if k >= 1 {
        assert(bytes == seq![id] + (name_bytes(name) + payload_bytes(value)).take(k - 1)) by {
            lemma_take_concat(seq![id], name_bytes(name) + payload_bytes(value), k);
        }
        assert(bytes.skip(1) == (name_bytes(name) + payload_bytes(value)).take(k - 1));
        lemma_take_concat(name_bytes(name), payload_bytes(value), k - 1);
        if k - 1 < name_bytes(name).len() {
            lemma_name_truncated(name, k - 1);
        } else {
            let body = payload_bytes(value).take(k - 1 - name_bytes(name).len());
            assert(parse_name(bytes.skip(1)) == Ok::<(Seq<u8>, Seq<char>), DecodeError>(
                (body, name),
            )) by {
                name_round_trip(name, body);
            }
            lemma_payload_truncated(value, k - 1 - name_bytes(name).len());
        }
    }
}

/// Every proper prefix of the bytes of a document is refused as truncated:
/// for every well-formed document that the wire can hold. No cut gives
/// another document, and none gives another error.
pub proof fn truncation_detected(d: Document, k: int)
    requires
        d.well_formed(),
        d.fits_wire(),
        0 <= k < encode(d).len(),
    ensures
        decode(encode(d).take(k)) == Err::<Document, DecodeError>(DecodeError::Truncation),
{
    lemma_named_truncated(d.name, d.root, k);
}

/// A list without elements is refused in both directions: it cannot be
/// encoded, and the payload of a list whose count is zero or negative cannot
/// be decoded, whatever the type id of its elements and whatever follows.
pub proof fn empty_list_rejected(element_id: u8, count: int, tail: Seq<u8>)
    requires
        -0x8000_0000 <= count <= 0,
    ensures
        encode_error(TagValue::List(Seq::empty())) == Some(EncodeError::StructuralViolation),
        parse_payload(9, seq![element_id] + be_bytes_4(count) + tail) == Err::<
            (Seq<u8>, TagValue),
            DecodeError,
        >(DecodeError::StructuralViolation),
{
    lemma_signed_round_trip(count, tail);
}

/// A named value with a type id outside 1 to 12 is refused for its id.
proof fn lemma_unknown_named(id: u8, name: Seq<char>, bytes: Seq<u8>)
    requires
        !(1 <= id <= 12),
        name_fits_wire(name),
    ensures
        parse_named(seq![id] + name_bytes(name) + bytes) == Err::<
            (Seq<u8>, (Seq<char>, TagValue)),
            DecodeError,
        >(DecodeError::UnknownTypeId),
{
    let named = seq![id] + name_bytes(name) + bytes;
    assert(named.skip(1) == name_bytes(name) + bytes);
    assert(parse_name(named.skip(1)) == Ok::<(Seq<u8>, Seq<char>), DecodeError>((bytes, name)))
        by {
        name_round_trip(name, bytes);
    }
}

/// A list with an element id outside 1 to 12 is refused for that id.
proof fn lemma_unknown_element(id: u8, count: int, bytes: Seq<u8>)
    requires
        !(1 <= id <= 12),
        1 <= count <= 0x7FFF_FFFF,
    ensures
        parse_payload(9, seq![id] + be_bytes_4(count) + bytes) == Err::<
            (Seq<u8>, TagValue),
            DecodeError,
        >(DecodeError::UnknownTypeId),
{
    let list = seq![id] + be_bytes_4(count) + bytes;
    assert(list.skip(1) == be_bytes_4(count) + bytes);
    assert(parse_count(list.skip(1)) == Ok::<(Seq<u8>, nat), DecodeError>((bytes, count as nat)))
        by {
        lemma_count_round_trip(count, bytes);
    }
    assert(parse_payload(id, bytes) == Err::<(Seq<u8>, TagValue), DecodeError>(
        DecodeError::UnknownTypeId,
    ));
}

/// A type id outside 1 to 12 is refused wherever a value is expected: as the
/// id of a payload, whatever the bytes; as the id of a named value, at the
/// root or in a compound, behind which a name stands; and as the element id
/// of a list with a count of at least one.
pub proof fn unknown_type_id_rejected(id: u8, bytes: Seq<u8>, name: Seq<char>, count: int)
    requires
        !(1 <= id <= 12),
        name_fits_wire(name),
        1 <= count <= 0x7FFF_FFFF,
    ensures
        parse_payload(id, bytes) == Err::<(Seq<u8>, TagValue), DecodeError>(
            DecodeError::UnknownTypeId,
        ),
        parse_named(seq![id] + name_bytes(name) + bytes) == Err::<
            (Seq<u8>, (Seq<char>, TagValue)),
            DecodeError,
        >(DecodeError::UnknownTypeId),
        parse_payload(9, seq![id] + be_bytes_4(count) + bytes) == Err::<
            (Seq<u8>, TagValue),
            DecodeError,
        >(DecodeError::UnknownTypeId),
{
    lemma_unknown_named(id, name, bytes);
    lemma_unknown_element(id, count, bytes);
}

/// In a mapping the value under the name of an entry is the value of that
/// entry.
proof fn lemma_last_value_at(entries: Seq<(Seq<char>, TagValue)>, i: int)
    requires
        names_distinct(entries),
        0 <= i < entries.len(),
    ensures
        last_value(entries, entries[i].0) == Some(entries[i].1),
    decreases entries.len(),
{
    if i < entries.len() - 1 {
        let front = entries.drop_last();
        lemma_last_value_at(front, i);
    }
}

/// Under a name that no entry has stands no value.
proof fn lemma_last_value_absent(entries: Seq<(Seq<char>, TagValue)>, name: Seq<char>)
    requires
        !has_name(entries, name),
    ensures
        last_value(entries, name) is None,
    decreases entries.len(),
{
    if entries.len() > 0 {
        let front = entries.drop_last();
        assert(!has_name(front, name)) by {
            if has_name(front, name) {
                let i = choose|i: int| 0 <= i < front.len() && #[trigger] front[i].0 == name;
            }
        }
        lemma_last_value_absent(front, name);
    }
}

/// Putting a value under a name keeps a mapping a mapping, changes what
/// stands under that name, and nothing else.
proof fn lemma_insert_entry(
    entries: Seq<(Seq<char>, TagValue)>,
    name: Seq<char>,
    value: TagValue,
    other: Seq<char>,
)
    requires
        names_distinct(entries),
    ensures
        names_distinct(insert_entry(entries, name, value)),
        last_value(insert_entry(entries, name, value), name) == Some(value),
        other != name ==> last_value(insert_entry(entries, name, value), other) == last_value(
            entries,
            other,
        ),
        forall|i: int|
            0 <= i < insert_entry(entries, name, value).len() ==> (#[trigger] insert_entry(
                entries,
                name,
                value,
            )[i]) == (name, value) || (i < entries.len() && insert_entry(entries, name, value)[i]
                == entries[i]),
{
    let after = insert_entry(entries, name, value);
    if has_name(entries, name) {
        let i = choose|i: int| 0 <= i < entries.len() && #[trigger] entries[i].0 == name;
        assert forall|k: int| 0 <= k < after.len() implies (#[trigger] after[k]).0 == entries[k].0 by {}
        lemma_last_value_at(after, i);
        if other != name {
            if has_name(entries, other) {
                let j = choose|j: int| 0 <= j < entries.len() && #[trigger] entries[j].0 == other;
                lemma_last_value_at(after, j);
                lemma_last_value_at(entries, j);
            } else {
                assert(!has_name(after, other)) by {
                    if has_name(after, other) {
                        let j = choose|j: int| 0 <= j < after.len() && #[trigger] after[j].0 == other;
                    }
                }
                lemma_last_value_absent(entries, other);
                lemma_last_value_absent(after, other);
            }
        }
    } else {
        assert(after.drop_last() =~= entries);
        assert(names_distinct(after)) by {
            assert forall|i: int, j: int| 0 <= i < j < after.len() implies (#[trigger] after[i]).0
                != (#[trigger] after[j]).0 by {
                if j == after.len() - 1 {
                }
            }
        }
    }
}

/// Of two entries of one name that were read the later wins: what a compound
/// holds under each name is the value of the last entry of that name, and it
/// holds each name once.
pub proof fn later_entry_wins(raw: Seq<(Seq<char>, TagValue)>, name: Seq<char>)
    ensures
        names_distinct(collect_entries(raw)),
        last_value(collect_entries(raw), name) == last_value(raw, name),
    decreases raw.len(),
{
    if raw.len() > 0 {
        later_entry_wins(raw.drop_last(), name);
        lemma_insert_entry(collect_entries(raw.drop_last()), raw.last().0, raw.last().1, name);
    }
}

/// What holds of every entry that was read holds of every entry of the
/// mapping made of them.
proof fn lemma_collect_preserves(
    raw: Seq<(Seq<char>, TagValue)>,
    holds: spec_fn((Seq<char>, TagValue)) -> bool,
)
    requires
        forall|j: int| 0 <= j < raw.len() ==> holds(#[trigger] raw[j]),
    ensures
        forall|i: int| 0 <= i < collect_entries(raw).len() ==> holds(#[trigger] collect_entries(raw)[i]),
    decreases raw.len(),
{
    if raw.len() > 0 {
        let front = raw.drop_last();
        assert forall|j: int| 0 <= j < front.len() implies holds(#[trigger] front[j]) by {}
        lemma_collect_preserves(front, holds);
        later_entry_wins(front, raw.last().0);
        lemma_insert_entry(collect_entries(front), raw.last().0, raw.last().1, raw.last().0);
    }
}

/// A name that was read is one that the wire can hold.
proof fn lemma_parsed_name_fits(bytes: Seq<u8>)
    ensures
        parse_name(bytes) matches Ok((_, s)) ==> name_fits_wire(s),
{
    if bytes.len() >= 2 {
        let len = be_u16_value(bytes);
        let body = bytes.skip(2);
        if body.len() >= len && valid_utf8(body.take(len)) {
            decode_utf8_encode_utf8(body.take(len));
        }
    }
}

/// A payload that was read is a well-formed value that the wire can hold.
proof fn lemma_parsed_payload_sound(id: u8, bytes: Seq<u8>)
    ensures
        parse_payload(id, bytes) matches Ok((_, t)) ==> t.well_formed() && fits_wire(t),
    decreases bytes.len(), 2int,
{
    if id == 8 {
        lemma_parsed_name_fits(bytes);
    } else if id == 9 {
        if bytes.len() >= 1 {
            if let Ok((body, n)) = parse_count(bytes.skip(1)) {
                lemma_parsed_items_sound(bytes[0], n, body);
            }
        }
    } else if id == 10 {
        lemma_parsed_entries_sound(bytes);
        if let Ok((_, raw)) = parse_entries(bytes) {
            later_entry_wins(raw, Seq::empty());
            lemma_collect_preserves(
                raw,
                |e: (Seq<char>, TagValue)| name_fits_wire(e.0) && e.1.well_formed() && fits_wire(e.1),
            );
        }
    }
}

/// The payloads of a list that were read are as many as were asked for, all
/// of the type asked for, and well-formed values that the wire can hold.
proof fn lemma_parsed_items_sound(id: u8, n: nat, bytes: Seq<u8>)
    ensures
        parse_items(id, n, bytes) matches Ok((_, items)) ==> items.len() == n && forall|i: int|
            0 <= i < items.len() ==> (#[trigger] items[i]).well_formed() && fits_wire(items[i])
                && type_id(items[i]) == id,
    decreases bytes.len(), 3int, n,
{
    if n > 0 {
        lemma_parsed_payload_sound(id, bytes);
        if let Ok((rest, first)) = parse_payload(id, bytes) {
            if rest.len() < bytes.len() {
                lemma_parsed_items_sound(id, (n - 1) as nat, rest);
            }
        }
    }
}

/// A named value that was read has a name that the wire can hold and is a
/// well-formed value that the wire can hold.
proof fn lemma_parsed_named_sound(bytes: Seq<u8>)
    ensures
        parse_named(bytes) matches Ok((_, (name, value))) ==> name_fits_wire(name)
            && value.well_formed() && fits_wire(value),
    decreases bytes.len(), 0int,
{
    if bytes.len() >= 1 {
        lemma_parsed_name_fits(bytes.skip(1));
        if let Ok((body, _)) = parse_name(bytes.skip(1)) {
            lemma_parsed_payload_sound(bytes[0], body);
        }
    }
}

/// The entries of a compound that were read have names that the wire can
/// hold and well-formed values that the wire can hold.
proof fn lemma_parsed_entries_sound(bytes: Seq<u8>)
    ensures
        parse_entries(bytes) matches Ok((_, entries)) ==> forall|i: int|
            0 <= i < entries.len() ==> name_fits_wire((#[trigger] entries[i]).0)
                && entries[i].1.well_formed() && fits_wire(entries[i].1),
    decreases bytes.len(), 1int,
{
    if bytes.len() >= 1 && bytes[0] != 0 {
        lemma_parsed_named_sound(bytes);
        if let Ok((rest, _)) = parse_named(bytes) {
            if rest.len() < bytes.len() {
                lemma_parsed_entries_sound(rest);
            }
        }
    }
}

/// Whatever is decoded is well-formed: the terminator is not among its
/// values, a list has an element and its elements are of one variant, a
/// compound holds each name once, and the root is a compound. And the wire
/// can hold it, so that it can be encoded and decoded again.
pub proof fn decoded_is_well_formed(id: u8, bytes: Seq<u8>)
    ensures
        parse_payload(id, bytes) matches Ok((_, t)) ==> t.well_formed() && fits_wire(t),
        decode(bytes) matches Ok(d) ==> d.well_formed() && d.fits_wire(),
{
    lemma_parsed_payload_sound(id, bytes);
    lemma_parsed_named_sound(bytes);
}

} // verus!

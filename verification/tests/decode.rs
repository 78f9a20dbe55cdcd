use nbt::error::DecodeError;
use nbt::file::NBTFile;
use nbt::read::{
    file_from_tuple, read_nbt_file, read_tag, read_tag_byte, read_tag_byte_array,
    read_tag_compound, read_tag_double, read_tag_float, read_tag_int, read_tag_int_array,
    read_tag_known, read_tag_list, read_tag_long, read_tag_long_array, read_tag_name,
    read_tag_short, read_tag_string, tuple_vector_to_hash_map,
};
use nbt::NBTTag;

#[test]
fn scalars_are_read_big_endian() {
    assert_eq!(read_tag_byte(&[0xFF, 9]), Ok((&[9u8][..], NBTTag::TagByte(-1))));
    assert_eq!(read_tag_short(&[0x12, 0x34, 9]), Ok((&[9u8][..], NBTTag::TagShort(0x1234))));
    assert_eq!(read_tag_short(&[0xFF, 0xFE]), Ok((&b""[..], NBTTag::TagShort(-2))));
    assert_eq!(
        read_tag_int(&[0x12, 0x34, 0x56, 0x78, 9]),
        Ok((&[9u8][..], NBTTag::TagInt(0x12345678)))
    );
    assert_eq!(read_tag_int(&[0x80, 0, 0, 0]), Ok((&b""[..], NBTTag::TagInt(i32::MIN))));
    assert_eq!(
        read_tag_long(&[1, 2, 3, 4, 5, 6, 7, 8, 9]),
        Ok((&[9u8][..], NBTTag::TagLong(0x0102030405060708)))
    );
    assert_eq!(
        read_tag_long(&[0xFF, 0xFF, 0xFF, 0xFF, 0xFF, 0xFF, 0xFF, 0xFE]),
        Ok((&b""[..], NBTTag::TagLong(-2)))
    );
}

#[test]
fn floats_are_read_as_bit_patterns() {
    assert_eq!(
        read_tag_float(&[0x3F, 0x80, 0x00, 0x00, 9]),
        Ok((&[9u8][..], NBTTag::TagFloat(1.0f32.to_bits())))
    );
    assert_eq!(
        read_tag_double(&[0x3F, 0xF0, 0, 0, 0, 0, 0, 0, 9]),
        Ok((&[9u8][..], NBTTag::TagDouble(1.0f64.to_bits())))
    );
    assert_eq!(
        read_tag_double(&[0xFF, 0xEE, 0xDD, 0xCC, 0xBB, 0xAA, 0x99, 0x88]),
        Ok((&b""[..], NBTTag::TagDouble(0xFFEE_DDCC_BBAA_9988)))
    );
}

#[test]
fn truncated_scalars_are_refused() {
    assert_eq!(read_tag_byte(&[]), Err(DecodeError::Truncation));
    assert_eq!(read_tag_short(&[1]), Err(DecodeError::Truncation));
    assert_eq!(read_tag_int(&[1, 2, 3]), Err(DecodeError::Truncation));
    assert_eq!(read_tag_long(&[1, 2, 3, 4, 5, 6, 7]), Err(DecodeError::Truncation));
    assert_eq!(read_tag_float(&[1, 2, 3]), Err(DecodeError::Truncation));
    assert_eq!(read_tag_double(&[1, 2, 3, 4, 5, 6, 7]), Err(DecodeError::Truncation));
}

#[test]
fn names_are_length_and_utf8() {
    assert_eq!(read_tag_name(&[0, 0]), Ok((&b""[..], "")));
    assert_eq!(read_tag_name(&[0, 2, 0xC3, 0xA9, 7]), Ok((&[7u8][..], "\u{e9}")));
    assert_eq!(read_tag_name(&[0]), Err(DecodeError::Truncation));
    assert_eq!(read_tag_name(&[0, 3, 0x61, 0x62]), Err(DecodeError::Truncation));
    assert_eq!(read_tag_name(&[0, 2, 0xC3, 0x28]), Err(DecodeError::MalformedText));
    assert_eq!(read_tag_name(&[0, 1, 0xFF]), Err(DecodeError::MalformedText));
}

#[test]
fn truncation_is_found_before_malformed_text() {
    assert_eq!(read_tag_name(&[0, 3, 0xFF, 0xFF]), Err(DecodeError::Truncation));
}

#[test]
fn strings_are_read_like_names() {
    assert_eq!(
        read_tag_string(&[0, 5, 0x48, 0x65, 0x6C, 0x6C, 0x6F, 1]),
        Ok((&[1u8][..], NBTTag::TagString("Hello".to_owned())))
    );
    assert_eq!(read_tag_string(&[0, 1, 0x80]), Err(DecodeError::MalformedText));
}

#[test]
fn arrays_are_count_and_elements() {
    assert_eq!(
        read_tag_byte_array(&[0, 0, 0, 3, 1, 0xFF, 0x7F, 9]),
        Ok((&[9u8][..], NBTTag::TagByteArray(vec![1, -1, 127])))
    );
    assert_eq!(
        read_tag_int_array(&[0, 0, 0, 2, 0, 0, 0, 1, 0xFF, 0xFF, 0xFF, 0xFF, 9]),
        Ok((&[9u8][..], NBTTag::TagIntArray(vec![1, -1])))
    );
    assert_eq!(
        read_tag_long_array(&[
            0, 0, 0, 2, 0, 0, 0, 0, 0, 0, 0, 1, 0xFF, 0xFF, 0xFF, 0xFF, 0xFF, 0xFF, 0xFF, 0xFF, 9
        ]),
        Ok((&[9u8][..], NBTTag::TagLongArray(vec![1, -1])))
    );
}

#[test]
fn arrays_of_no_or_negative_count_are_refused() {
    assert_eq!(read_tag_byte_array(&[0, 0, 0, 0]), Err(DecodeError::StructuralViolation));
    assert_eq!(
        read_tag_byte_array(&[0xFF, 0xFF, 0xFF, 0xFF, 1]),
        Err(DecodeError::StructuralViolation)
    );
    assert_eq!(read_tag_int_array(&[0, 0, 0, 0]), Err(DecodeError::StructuralViolation));
    assert_eq!(read_tag_int_array(&[0x80, 0, 0, 0]), Err(DecodeError::StructuralViolation));
    assert_eq!(read_tag_long_array(&[0, 0, 0, 0]), Err(DecodeError::StructuralViolation));
    assert_eq!(
        read_tag_long_array(&[0xFF, 0xFF, 0xFF, 0xFE]),
        Err(DecodeError::StructuralViolation)
    );
}

#[test]
fn arrays_that_end_early_are_refused() {
    assert_eq!(read_tag_byte_array(&[0, 0, 0]), Err(DecodeError::Truncation));
    assert_eq!(read_tag_byte_array(&[0, 0, 0, 2, 1]), Err(DecodeError::Truncation));
    assert_eq!(read_tag_int_array(&[0, 0, 0, 2, 0, 0, 0, 1, 0, 0]), Err(DecodeError::Truncation));
    assert_eq!(
        read_tag_long_array(&[0, 0, 0, 1, 0, 0, 0, 0, 0, 0, 0]),
        Err(DecodeError::Truncation)
    );
    assert_eq!(read_tag_int_array(&[0x7F, 0xFF, 0xFF, 0xFF]), Err(DecodeError::Truncation));
}

#[test]
fn list_of_three_ints_is_read_back() {
    assert_eq!(
        read_tag_list(&[3, 0, 0, 0, 3, 0, 0, 0, 1, 0, 0, 0, 2, 0, 0, 0, 3, 9]),
        Ok((
            &[9u8][..],
            NBTTag::TagList(vec![NBTTag::TagInt(1), NBTTag::TagInt(2), NBTTag::TagInt(3)])
        ))
    );
}

#[test]
fn list_of_no_or_negative_count_is_refused() {
    assert_eq!(read_tag_list(&[3, 0, 0, 0, 0]), Err(DecodeError::StructuralViolation));
    assert_eq!(read_tag_list(&[3, 0xFF, 0xFF, 0xFF, 0xFF]), Err(DecodeError::StructuralViolation));
    assert_eq!(read_tag_list(&[13, 0, 0, 0, 0]), Err(DecodeError::StructuralViolation));
}

#[test]
fn list_that_ends_early_is_refused() {
    assert_eq!(read_tag_list(&[]), Err(DecodeError::Truncation));
    assert_eq!(read_tag_list(&[3, 0, 0]), Err(DecodeError::Truncation));
    assert_eq!(read_tag_list(&[3, 0, 0, 0, 2, 0, 0, 0, 1]), Err(DecodeError::Truncation));
}

#[test]
fn list_of_lists_is_read() {
    let bytes = [9, 0, 0, 0, 2, 1, 0, 0, 0, 1, 7, 2, 0, 0, 0, 1, 0, 8];
    assert_eq!(
        read_tag_list(&bytes),
        Ok((
            &b""[..],
            NBTTag::TagList(vec![
                NBTTag::TagList(vec![NBTTag::TagByte(7)]),
                NBTTag::TagList(vec![NBTTag::TagShort(8)]),
            ])
        ))
    );
}

#[test]
fn compound_is_read_up_to_its_terminator() {
    assert_eq!(read_tag_compound(&[0, 5]), Ok((&[5u8][..], NBTTag::TagCompound(Vec::new()))));
    assert_eq!(
        read_tag_compound(&[1, 0, 1, 0x62, 1, 2, 0, 1, 0x61, 0, 2, 0, 5]),
        Ok((
            &[5u8][..],
            NBTTag::TagCompound(vec![
                ("b".to_owned(), NBTTag::TagByte(1)),
                ("a".to_owned(), NBTTag::TagShort(2)),
            ])
        ))
    );
}

#[test]
fn compound_without_terminator_is_refused() {
    assert_eq!(read_tag_compound(&[]), Err(DecodeError::Truncation));
    assert_eq!(read_tag_compound(&[1, 0, 1, 0x62, 1]), Err(DecodeError::Truncation));
}

#[test]
fn later_entry_of_a_name_wins() {
    let bytes = [1, 0, 1, 0x61, 1, 1, 0, 1, 0x62, 2, 3, 0, 1, 0x61, 0, 0, 0, 3, 0];
    assert_eq!(
        read_tag_compound(&bytes),
        Ok((
            &b""[..],
            NBTTag::TagCompound(vec![
                ("a".to_owned(), NBTTag::TagInt(3)),
                ("b".to_owned(), NBTTag::TagByte(2)),
            ])
        ))
    );
}

#[test]
fn collecting_entries_keeps_first_place_and_last_value() {
    let input = vec![
        ("a", NBTTag::TagByte(1)),
        ("b", NBTTag::TagByte(2)),
        ("a", NBTTag::TagByte(3)),
        ("c", NBTTag::TagByte(4)),
        ("b", NBTTag::TagByte(5)),
    ];
    assert_eq!(
        tuple_vector_to_hash_map(input),
        vec![
            ("a".to_owned(), NBTTag::TagByte(3)),
            ("b".to_owned(), NBTTag::TagByte(5)),
            ("c".to_owned(), NBTTag::TagByte(4)),
        ]
    );
    assert_eq!(tuple_vector_to_hash_map(Vec::new()), Vec::new());
}

#[test]
fn named_value_is_id_name_payload() {
    assert_eq!(
        read_tag(&[3, 0, 1, 0x78, 0, 0, 0, 5, 9]),
        Ok((&[9u8][..], ("x", NBTTag::TagInt(5))))
    );
    assert_eq!(read_tag(&[]), Err(DecodeError::Truncation));
    assert_eq!(read_tag(&[3]), Err(DecodeError::Truncation));
    assert_eq!(read_tag(&[3, 0, 1, 0x78, 0, 0]), Err(DecodeError::Truncation));
    assert_eq!(read_tag(&[3, 0, 1, 0xFF, 0, 0, 0, 5]), Err(DecodeError::MalformedText));
}

#[test]
fn unknown_type_id_is_refused_at_every_place_of_a_value() {
    assert_eq!(read_tag_known(&[1, 2, 3], 0x0D), Err(DecodeError::UnknownTypeId));
    assert_eq!(read_tag_known(&[], 0x0D), Err(DecodeError::UnknownTypeId));
    assert_eq!(read_tag_known(&[1, 2, 3], 0), Err(DecodeError::UnknownTypeId));
    assert_eq!(read_tag_known(&[1, 2, 3], 255), Err(DecodeError::UnknownTypeId));
    // at the root
    assert_eq!(read_nbt_file(&[0x0D, 0, 1, 0x65, 0]), Err(DecodeError::UnknownTypeId));
    assert_eq!(
        NBTFile::from_bytes(&vec![0x0D, 0, 1, 0x65, 0]),
        Err(DecodeError::UnknownTypeId)
    );
    // as an entry of a compound
    assert_eq!(
        NBTFile::from_bytes(&vec![0x0A, 0, 1, 0x65, 0x0D, 0, 1, 0x61, 1, 0]),
        Err(DecodeError::UnknownTypeId)
    );
    // as the element id of a list
    assert_eq!(
        NBTFile::from_bytes(&vec![0x0A, 0, 0, 9, 0, 1, 0x6C, 0x0D, 0, 0, 0, 1, 1, 0]),
        Err(DecodeError::UnknownTypeId)
    );
    assert_eq!(read_tag_list(&[0, 0, 0, 0, 1, 1]), Err(DecodeError::UnknownTypeId));
}

#[test]
fn known_ids_choose_the_reader() {
    assert_eq!(read_tag_known(&[7], 1), Ok((&b""[..], NBTTag::TagByte(7))));
    assert_eq!(read_tag_known(&[0, 7], 2), Ok((&b""[..], NBTTag::TagShort(7))));
    assert_eq!(read_tag_known(&[0, 0, 0, 7], 3), Ok((&b""[..], NBTTag::TagInt(7))));
    assert_eq!(read_tag_known(&[0, 0, 0, 0, 0, 0, 0, 7], 4), Ok((&b""[..], NBTTag::TagLong(7))));
    assert_eq!(read_tag_known(&[0, 0, 0, 7], 5), Ok((&b""[..], NBTTag::TagFloat(7))));
    assert_eq!(
        read_tag_known(&[0, 0, 0, 0, 0, 0, 0, 7], 6),
        Ok((&b""[..], NBTTag::TagDouble(7)))
    );
    assert_eq!(
        read_tag_known(&[0, 0, 0, 1, 7], 7),
        Ok((&b""[..], NBTTag::TagByteArray(vec![7])))
    );
    assert_eq!(
        read_tag_known(&[0, 1, 0x37], 8),
        Ok((&b""[..], NBTTag::TagString("7".to_owned())))
    );
    assert_eq!(
        read_tag_known(&[1, 0, 0, 0, 1, 7], 9),
        Ok((&b""[..], NBTTag::TagList(vec![NBTTag::TagByte(7)])))
    );
    assert_eq!(read_tag_known(&[0], 10), Ok((&b""[..], NBTTag::TagCompound(Vec::new()))));
    assert_eq!(
        read_tag_known(&[0, 0, 0, 1, 0, 0, 0, 7], 11),
        Ok((&b""[..], NBTTag::TagIntArray(vec![7])))
    );
    assert_eq!(
        read_tag_known(&[0, 0, 0, 1, 0, 0, 0, 0, 0, 0, 0, 7], 12),
        Ok((&b""[..], NBTTag::TagLongArray(vec![7])))
    );
}

#[test]
fn root_that_is_no_compound_gives_no_document() {
    assert_eq!(read_nbt_file(&[3, 0, 1, 0x78, 0, 0, 0, 5, 9]), Ok((&[9u8][..], None)));
    assert_eq!(
        NBTFile::from_bytes(&vec![3, 0, 1, 0x78, 0, 0, 0, 5]),
        Err(DecodeError::StructuralViolation)
    );
    assert_eq!(file_from_tuple(("x", NBTTag::TagInt(5))), None);
    assert_eq!(
        file_from_tuple(("x", NBTTag::TagCompound(Vec::new()))),
        Some(NBTFile { root_name: "x".to_owned(), root: NBTTag::TagCompound(Vec::new()) })
    );
}

#[test]
fn document_ignores_what_follows_it() {
    assert_eq!(
        NBTFile::from_bytes(&vec![0x0A, 0, 0, 0, 1, 2, 3]),
        Ok(NBTFile { root_name: "".to_owned(), root: NBTTag::TagCompound(Vec::new()) })
    );
    assert_eq!(
        read_nbt_file(&[0x0A, 0, 0, 0, 1, 2, 3]),
        Ok((
            &[1u8, 2, 3][..],
            Some(NBTFile { root_name: "".to_owned(), root: NBTTag::TagCompound(Vec::new()) })
        ))
    );
}

#[test]
fn hello_document_is_read() {
    let input = vec![
        0x0A, 0x00, 0x01, 0x65, 0x08, 0x00, 0x05, 0x48, 0x65, 0x6C, 0x6C, 0x6F, 0x00, 0x05, 0x48,
        0x65, 0x6C, 0x6C, 0x6f, 0x00,
    ];
    assert_eq!(
        NBTFile::from_bytes(&input),
        Ok(NBTFile {
            root_name: "e".to_owned(),
            root: NBTTag::TagCompound(vec![(
                "Hello".to_owned(),
                NBTTag::TagString("Hello".to_owned())
            )]),
        })
    );
}

#[test]
fn empty_input_is_truncated() {
    assert_eq!(NBTFile::from_bytes(&Vec::new()), Err(DecodeError::Truncation));
}

use nbt::file::NBTFile;
use nbt::read::{read_nbt_file, read_tag_name, tuple_vector_to_hash_map};
use nbt::NBTTag;

#[test]
fn test_tuple_vec_to_hash_map() {
    let input = vec![
        ("Hello World!", NBTTag::TagString("Test".to_owned())),
        ("Bye World!", NBTTag::TagInt(3)),
    ];

    let mut expected = Vec::new();

    expected.push(("Hello World!".to_owned(), NBTTag::TagString("Test".to_owned())));
    expected.push(("Bye World!".to_owned(), NBTTag::TagInt(3)));

    assert_eq!(tuple_vector_to_hash_map(input), expected);
}

#[test]
fn test_read_name() {
    assert_eq!(
        read_tag_name(vec![0x00, 0x05, 0x48, 0x65, 0x6C, 0x6C, 0x6F].as_slice()),
        Ok((&b""[..], "Hello"))
    )
}

#[test]
fn test_read_nbt_file() {
    let input = vec![
        0x0A, 0x00, 0x01, 0x65, 0x08, 0x00, 0x05, 0x48, 0x65, 0x6C, 0x6C, 0x6F, 0x00, 0x05, 0x48,
        0x65, 0x6C, 0x6C, 0x6f, 0x00,
    ];

    let mut compound_contents = Vec::new();
    compound_contents.push(("Hello".to_owned(), NBTTag::TagString("Hello".to_owned())));

    assert_eq!(
        read_nbt_file(input.as_slice()),
        Ok((
            &b""[..],
            Some(NBTFile {
                root_name: "e".to_owned(),
                root: NBTTag::TagCompound(compound_contents),
            })
        ))
    );
}

use nbt::error::DecodeError;
use nbt::file::NBTFile;
use nbt::read::{read_tag_known, read_tag_name};
use nbt::write::{get_tag_id, write_tag, write_tag_name};
use nbt::NBTTag;

fn sample_root() -> NBTTag {
    NBTTag::TagCompound(vec![
        ("byte".to_owned(), NBTTag::TagByte(-7)),
        ("short".to_owned(), NBTTag::TagShort(-300)),
        ("int".to_owned(), NBTTag::TagInt(i32::MIN)),
        ("long".to_owned(), NBTTag::TagLong(i64::MAX)),
        ("float".to_owned(), NBTTag::TagFloat(3.25f32.to_bits())),
        ("double".to_owned(), NBTTag::TagDouble((-0.125f64).to_bits())),
        ("nan".to_owned(), NBTTag::TagFloat(f32::NAN.to_bits())),
        ("bytes".to_owned(), NBTTag::TagByteArray(vec![0, -1, 1, -128, 127])),
        ("text".to_owned(), NBTTag::TagString("h\u{e9}llo \u{1F600}".to_owned())),
        ("".to_owned(), NBTTag::TagString("".to_owned())),
        (
            "list".to_owned(),
            NBTTag::TagList(vec![NBTTag::TagInt(1), NBTTag::TagInt(2), NBTTag::TagInt(3)]),
        ),
        (
            "lists".to_owned(),
            NBTTag::TagList(vec![
                NBTTag::TagList(vec![NBTTag::TagByte(1)]),
                NBTTag::TagList(vec![NBTTag::TagString("x".to_owned())]),
            ]),
        ),
        (
            "compounds".to_owned(),
            NBTTag::TagList(vec![
                NBTTag::TagCompound(Vec::new()),
                NBTTag::TagCompound(vec![("k".to_owned(), NBTTag::TagLongArray(vec![1, -1]))]),
            ]),
        ),
        ("ints".to_owned(), NBTTag::TagIntArray(vec![i32::MAX, 0, -1])),
        ("longs".to_owned(), NBTTag::TagLongArray(vec![i64::MIN, 0, 1])),
        ("inner".to_owned(), NBTTag::TagCompound(vec![("x".to_owned(), NBTTag::TagByte(1))])),
    ])
}

#[test]
fn document_round_trips() {
    let file = NBTFile { root_name: "root".to_owned(), root: sample_root() };
    let bytes = file.as_bytes().unwrap();
    assert_eq!(NBTFile::from_bytes(&bytes), Ok(file));
}

#[test]
fn document_with_empty_name_round_trips() {
    let file = NBTFile::new("".to_owned(), None);
    let bytes = file.as_bytes().unwrap();
    assert_eq!(NBTFile::from_bytes(&bytes), Ok(file));
}

#[test]
fn every_variant_round_trips_under_its_id() {
    let values = vec![
        NBTTag::TagByte(-7),
        NBTTag::TagShort(-300),
        NBTTag::TagInt(123456),
        NBTTag::TagLong(-1234567890123),
        NBTTag::TagFloat(1.5f32.to_bits()),
        NBTTag::TagDouble(2.5f64.to_bits()),
        NBTTag::TagByteArray(vec![1, 2, 3]),
        NBTTag::TagString("text".to_owned()),
        NBTTag::TagList(vec![NBTTag::TagShort(1), NBTTag::TagShort(2)]),
        sample_root(),
        NBTTag::TagIntArray(vec![1, 2, 3]),
        NBTTag::TagLongArray(vec![1, 2, 3]),
    ];
    let mut expected_id = 1u8;
    for value in values {
        let id = get_tag_id(&value).unwrap();
        assert_eq!(id, expected_id);
        let mut bytes = write_tag(&value, false, false, None).unwrap();
        bytes.push(0xAB);
        assert_eq!(read_tag_known(&bytes, id), Ok((&[0xABu8][..], value)));
        expected_id += 1;
    }
}

#[test]
fn list_in_a_compound_round_trips() {
    let list = NBTTag::TagList(vec![NBTTag::TagInt(1), NBTTag::TagInt(2), NBTTag::TagInt(3)]);
    let file =
        NBTFile { root_name: "".to_owned(), root: NBTTag::TagCompound(vec![("l".to_owned(), list)]) };
    let bytes = file.as_bytes().unwrap();
    assert_eq!(
        bytes,
        vec![
            0x0A, 0, 0, 9, 0, 1, 0x6C, 3, 0, 0, 0, 3, 0, 0, 0, 1, 0, 0, 0, 2, 0, 0, 0, 3, 0
        ]
    );
    assert_eq!(NBTFile::from_bytes(&bytes), Ok(file));
}

#[test]
fn names_round_trip() {
    for name in ["", "a", "Hello", "h\u{e9}llo", "\u{1F600}\u{1F600}"] {
        let mut bytes = Vec::new();
        write_tag_name(&mut bytes, name);
        bytes.push(0xCD);
        assert_eq!(read_tag_name(&bytes), Ok((&[0xCDu8][..], name)));
    }
    let longest = "b".repeat(65535);
    let mut bytes = Vec::new();
    write_tag_name(&mut bytes, &longest);
    assert_eq!(read_tag_name(&bytes), Ok((&b""[..], longest.as_str())));
}

#[test]
fn name_of_more_than_the_length_prefix_holds_is_not_read_back() {
    let long = "b".repeat(65536);
    let mut bytes = Vec::new();
    write_tag_name(&mut bytes, &long);
    assert_eq!(read_tag_name(&bytes).map(|(_, name)| name), Ok(""));
}

#[test]
fn empty_array_is_not_read_back() {
    let bytes = write_tag(&NBTTag::TagByteArray(Vec::new()), false, false, None).unwrap();
    assert_eq!(read_tag_known(&bytes, 7), Err(DecodeError::StructuralViolation));
}

#[test]
fn every_proper_prefix_of_a_document_is_truncated() {
    let file = NBTFile { root_name: "root".to_owned(), root: sample_root() };
    let bytes = file.as_bytes().unwrap();
    for k in 0..bytes.len() {
        assert_eq!(
            NBTFile::from_bytes(&bytes[..k].to_vec()),
            Err(DecodeError::Truncation),
            "prefix of {} bytes",
            k
        );
    }
    assert_eq!(NBTFile::from_bytes(&bytes), Ok(file));
}

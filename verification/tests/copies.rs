use nbt::file::NBTFile;
use nbt::NBTTag;

#[test]
fn clone_copies_the_whole_tree() {
    let root = NBTTag::TagCompound(vec![
        ("a".to_owned(), NBTTag::TagList(vec![NBTTag::TagByteArray(vec![1, 2])])),
        ("b".to_owned(), NBTTag::TagString("s".to_owned())),
        ("c".to_owned(), NBTTag::TagIntArray(vec![3])),
        ("d".to_owned(), NBTTag::TagLongArray(vec![4])),
        ("e".to_owned(), NBTTag::TagCompound(vec![("f".to_owned(), NBTTag::TagDouble(5))])),
    ]);
    assert_eq!(root.clone(), root);
    let file = NBTFile { root_name: "n".to_owned(), root };
    assert_eq!(file.clone(), file);
}

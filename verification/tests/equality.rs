use nbt::file::NBTFile;
use nbt::NBTTag;

#[test]
fn order_of_entries_does_not_count() {
    let a = NBTTag::TagCompound(vec![
        ("x".to_owned(), NBTTag::TagInt(1)),
        ("y".to_owned(), NBTTag::TagString("s".to_owned())),
    ]);
    let b = NBTTag::TagCompound(vec![
        ("y".to_owned(), NBTTag::TagString("s".to_owned())),
        ("x".to_owned(), NBTTag::TagInt(1)),
    ]);
    assert_eq!(a, b);
    assert_eq!(b, a);
    assert_eq!(
        NBTFile { root_name: "n".to_owned(), root: a },
        NBTFile { root_name: "n".to_owned(), root: b }
    );
}

#[test]
fn order_does_not_count_at_any_depth() {
    let inner_a = NBTTag::TagCompound(vec![
        ("p".to_owned(), NBTTag::TagByte(1)),
        ("q".to_owned(), NBTTag::TagByte(2)),
    ]);
    let inner_b = NBTTag::TagCompound(vec![
        ("q".to_owned(), NBTTag::TagByte(2)),
        ("p".to_owned(), NBTTag::TagByte(1)),
    ]);
    let a = NBTTag::TagCompound(vec![("l".to_owned(), NBTTag::TagList(vec![inner_a]))]);
    let b = NBTTag::TagCompound(vec![("l".to_owned(), NBTTag::TagList(vec![inner_b]))]);
    assert_eq!(a, b);
}

#[test]
fn order_of_elements_counts() {
    let a = NBTTag::TagList(vec![NBTTag::TagInt(1), NBTTag::TagInt(2)]);
    let b = NBTTag::TagList(vec![NBTTag::TagInt(2), NBTTag::TagInt(1)]);
    assert_ne!(a, b);
    assert_ne!(NBTTag::TagIntArray(vec![1, 2]), NBTTag::TagIntArray(vec![2, 1]));
}

#[test]
fn names_and_values_count() {
    let a = NBTTag::TagCompound(vec![("x".to_owned(), NBTTag::TagInt(1))]);
    assert_ne!(a, NBTTag::TagCompound(vec![("y".to_owned(), NBTTag::TagInt(1))]));
    assert_ne!(a, NBTTag::TagCompound(vec![("x".to_owned(), NBTTag::TagInt(2))]));
    assert_ne!(a, NBTTag::TagCompound(Vec::new()));
    assert_ne!(
        a,
        NBTTag::TagCompound(vec![
            ("x".to_owned(), NBTTag::TagInt(1)),
            ("z".to_owned(), NBTTag::TagInt(1)),
        ])
    );
    assert_ne!(
        NBTFile { root_name: "n".to_owned(), root: NBTTag::TagCompound(Vec::new()) },
        NBTFile { root_name: "m".to_owned(), root: NBTTag::TagCompound(Vec::new()) }
    );
}

#[test]
fn variants_count() {
    assert_eq!(NBTTag::TagEnd, NBTTag::TagEnd);
    assert_eq!(NBTTag::TagInt(3), NBTTag::TagInt(3));
    assert_ne!(NBTTag::TagInt(3), NBTTag::TagByte(3));
    assert_ne!(NBTTag::TagInt(3), NBTTag::TagFloat(3));
    assert_ne!(NBTTag::TagByteArray(vec![1]), NBTTag::TagList(vec![NBTTag::TagByte(1)]));
    assert_ne!(NBTTag::TagLong(3), NBTTag::TagDouble(3));
    assert_eq!(NBTTag::TagString("a".to_owned()), NBTTag::TagString("a".to_owned()));
    assert_ne!(NBTTag::TagString("a".to_owned()), NBTTag::TagString("b".to_owned()));
    assert_eq!(NBTTag::TagLongArray(vec![1, 2]), NBTTag::TagLongArray(vec![1, 2]));
    assert_ne!(NBTTag::TagByteArray(vec![1, 2]), NBTTag::TagByteArray(vec![1]));
}

#[test]
fn floats_are_compared_by_bit_pattern() {
    assert_eq!(NBTTag::TagFloat(f32::NAN.to_bits()), NBTTag::TagFloat(f32::NAN.to_bits()));
    assert_ne!(NBTTag::TagFloat(0.0f32.to_bits()), NBTTag::TagFloat((-0.0f32).to_bits()));
    assert_eq!(NBTTag::TagDouble(1.5f64.to_bits()), NBTTag::TagDouble(1.5f64.to_bits()));
}

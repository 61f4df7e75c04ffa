use metadata::{check_size_limits, encode_entry, Limits, Metadata, MetadataError, Name, Value};

fn text(value: &str) -> Value {
    Value::String(value.to_owned())
}

#[test]
fn text_entry_is_key_then_tagged_text() {
    assert_eq!(
        encode_entry(&Name::test("1"), &text("2")),
        vec![0x04, b'1', 3, 0x04, b'2']
    );
    assert_eq!(encode_entry(&Name::test(""), &text("")), vec![0x00, 3, 0x00]);
    assert_eq!(
        encode_entry(&Name::test("é"), &text("日")),
        vec![0x08, 0xc3, 0xa9, 3, 0x0c, 0xe6, 0x97, 0xa5]
    );
    assert_eq!(encode_entry(&Name::test("2"), &text("Hello World")).len(), 15);
}

#[test]
fn numbers_are_written_lowest_byte_first() {
    assert_eq!(
        encode_entry(&Name::test("n"), &Value::U32(0x0102_0304)),
        vec![0x04, b'n', 0, 0x04, 0x03, 0x02, 0x01]
    );
    assert_eq!(
        encode_entry(&Name::test("n"), &Value::U32(u32::MAX)),
        vec![0x04, b'n', 0, 0xff, 0xff, 0xff, 0xff]
    );
    assert_eq!(
        encode_entry(&Name::test("n"), &Value::U128(0x0102_0304_0506_0708_090a_0b0c_0d0e_0f10)),
        vec![
            0x04, b'n', 1, 0x10, 0x0f, 0x0e, 0x0d, 0x0c, 0x0b, 0x0a, 0x09, 0x08, 0x07, 0x06, 0x05,
            0x04, 0x03, 0x02, 0x01
        ]
    );
}

#[test]
fn truth_values_take_one_byte() {
    assert_eq!(
        encode_entry(&Name::test("t"), &Value::Bool(true)),
        vec![0x04, b't', 2, 1]
    );
    assert_eq!(
        encode_entry(&Name::test("t"), &Value::Bool(false)),
        vec![0x04, b't', 2, 0]
    );
}

#[test]
fn container_is_count_then_entries_in_key_order() {
    assert_eq!(
        encode_entry(&Name::test("0"), &Metadata::new().into()),
        vec![0x04, b'0', 4, 0x00]
    );
    let limits = Limits::new(8, 64);
    let mut inner = Metadata::new();
    inner
        .insert_with_limits(Name::test("b"), Value::Bool(true), limits)
        .unwrap();
    inner
        .insert_with_limits(Name::test("a"), Value::U32(1), limits)
        .unwrap();
    let mut outer = Metadata::new();
    outer
        .insert_with_limits(Name::test("in"), inner.into(), limits)
        .unwrap();
    assert_eq!(
        encode_entry(&Name::test("k"), &outer.into()),
        vec![
            0x04, b'k', 4, 0x04, 0x08, b'i', b'n', 4, 0x08, 0x04, b'a', 0, 1, 0, 0, 0, 0x04, b'b',
            2, 1
        ]
    );
}

#[test]
fn length_prefix_grows_with_the_length() {
    let key = Name::test("");
    let encoded = encode_entry(&key, &text(&"x".repeat(63)));
    assert_eq!(encoded[..3], [0x00, 3, 0xfc]);
    assert_eq!(encoded.len(), 2 + 1 + 63);
    let encoded = encode_entry(&key, &text(&"x".repeat(64)));
    assert_eq!(encoded[..4], [0x00, 3, 0x01, 0x01]);
    assert_eq!(encoded.len(), 2 + 2 + 64);
    let encoded = encode_entry(&key, &text(&"x".repeat(16383)));
    assert_eq!(encoded[..4], [0x00, 3, 0xfd, 0xff]);
    assert_eq!(encoded.len(), 2 + 2 + 16383);
    let encoded = encode_entry(&key, &text(&"x".repeat(16384)));
    assert_eq!(encoded[..6], [0x00, 3, 0x02, 0x00, 0x01, 0x00]);
    assert_eq!(encoded.len(), 2 + 4 + 16384);
    let long = Name::test(&"k".repeat(70));
    let encoded = encode_entry(&long, &Value::Bool(true));
    assert_eq!(encoded[..2], [0x19, 0x01]);
    assert_eq!(encoded.len(), 2 + 70 + 2);
}

#[test]
fn entry_count_uses_the_same_prefix() {
    let limits = Limits::new(100, 64);
    let mut inner = Metadata::new();
    for number in 0..64u32 {
        inner
            .insert_with_limits(Name::test(&format!("{number:02}")), Value::Bool(true), limits)
            .unwrap();
    }
    let encoded = encode_entry(&Name::test(""), &inner.into());
    assert_eq!(encoded[..4], [0x00, 4, 0x01, 0x01]);
    assert_eq!(encoded[4..9], [0x08, b'0', b'0', 2, 1]);
    assert_eq!(encoded.len(), 4 + 64 * 5);
}

#[test]
fn size_check_measures_the_encoded_entry() {
    let key = Name::test("1");
    assert_eq!(check_size_limits(&key, &text("2"), Limits::new(0, 5)), Ok(()));
    assert_eq!(
        check_size_limits(&key, &text("2"), Limits::new(0, 4)),
        Err(MetadataError::EntrySizeExceeded { max: 4, actual: 5 })
    );
    assert_eq!(
        check_size_limits(&key, &text("23456"), Limits::new(0, 5)),
        Err(MetadataError::EntrySizeExceeded { max: 5, actual: 9 })
    );
    assert_eq!(
        check_size_limits(&Name::test("2"), &text("Hello World"), Limits::new(0, 14)),
        Err(MetadataError::EntrySizeExceeded { max: 14, actual: 15 })
    );
    assert_eq!(
        check_size_limits(&Name::test("2"), &text("Hello World"), Limits::new(0, 15)),
        Ok(())
    );
    assert_eq!(
        check_size_limits(&key, &Value::U128(0), Limits::new(0, 0)),
        Err(MetadataError::EntrySizeExceeded { max: 0, actual: 19 })
    );
}

#[test]
fn small_values_can_be_encoded() {
    assert!(Name::test("").is_encodable());
    assert!(Name::test("some name").is_encodable());
    assert!(Value::U32(1).is_encodable());
    assert!(Value::U128(1).is_encodable());
    assert!(Value::Bool(false).is_encodable());
    assert!(text("some text").is_encodable());
    assert!(Value::from(Metadata::new()).is_encodable());
}

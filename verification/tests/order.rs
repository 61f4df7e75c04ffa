use metadata::{KeyOrder, Limits, Metadata, Name, Value};

#[test]
fn names_keep_their_text() {
    let name = Name::test("hello");
    assert_eq!(name.as_str(), "hello");
    assert_eq!(name.clone(), name);
    assert_eq!(Name::test("").as_str(), "");
}

#[test]
fn names_compare_by_their_bytes() {
    assert_eq!(Name::test("a").compare(&Name::test("b")), KeyOrder::Before);
    assert_eq!(Name::test("b").compare(&Name::test("a")), KeyOrder::After);
    assert_eq!(Name::test("a").compare(&Name::test("a")), KeyOrder::Same);
    assert_eq!(Name::test("").compare(&Name::test("")), KeyOrder::Same);
    assert_eq!(Name::test("").compare(&Name::test("a")), KeyOrder::Before);
    assert_eq!(Name::test("a").compare(&Name::test("")), KeyOrder::After);
    assert_eq!(Name::test("a").compare(&Name::test("aa")), KeyOrder::Before);
    assert_eq!(Name::test("ab").compare(&Name::test("b")), KeyOrder::Before);
    assert_eq!(Name::test("10").compare(&Name::test("9")), KeyOrder::Before);
    assert_eq!(Name::test("Z").compare(&Name::test("a")), KeyOrder::Before);
    assert_eq!(Name::test("z").compare(&Name::test("é")), KeyOrder::Before);
    assert_eq!(Name::test("é").compare(&Name::test("z")), KeyOrder::After);
}

#[test]
fn comparison_agrees_with_the_order_of_strings() {
    let texts = ["", "a", "aa", "ab", "b", "B", "é", "z", "zz", "日本", "10", "9"];
    for left in texts {
        for right in texts {
            let expected = if left < right {
                KeyOrder::Before
            } else if left == right {
                KeyOrder::Same
            } else {
                KeyOrder::After
            };
            assert_eq!(Name::test(left).compare(&Name::test(right)), expected);
        }
    }
}

#[test]
fn keys_come_out_in_ascending_order() {
    let mut metadata = Metadata::new();
    let limits = Limits::new(16, 64);
    for key in ["b", "é", "a", "aa", "", "B", "10", "9"] {
        assert_eq!(
            metadata.insert_with_limits(Name::test(key), Value::Bool(true), limits),
            Ok(None)
        );
    }
    let keys: Vec<&str> = metadata.keys().into_iter().map(|key| key.as_str()).collect();
    assert_eq!(keys, vec!["", "10", "9", "B", "a", "aa", "b", "é"]);
    assert_eq!(metadata.len(), 8);
    metadata.remove(&Name::test("a"));
    metadata.remove(&Name::test(""));
    let keys: Vec<&str> = metadata.keys().into_iter().map(|key| key.as_str()).collect();
    assert_eq!(keys, vec!["10", "9", "B", "aa", "b", "é"]);
}

#[test]
fn many_keys_are_all_found_again() {
    let mut metadata = Metadata::new();
    let limits = Limits::new(1000, 64);
    for number in 0..500u32 {
        let key = Name::test(&format!("key{}", (number * 7919) % 500));
        assert_eq!(
            metadata.insert_with_limits(key, Value::U32(number), limits),
            Ok(None)
        );
    }
    assert_eq!(metadata.len(), 500);
    for number in 0..500u32 {
        let key = Name::test(&format!("key{}", (number * 7919) % 500));
        assert_eq!(metadata.get(&key), Some(&Value::U32(number)));
    }
    assert!(metadata.get(&Name::test("key500")).is_none());
    let keys = metadata.keys();
    for pair in keys.windows(2) {
        assert_eq!(pair[0].compare(pair[1]), KeyOrder::Before);
    }
}

use metadata::{Limits, Metadata, MetadataError, Name, Value};

fn text(value: &str) -> Value {
    Value::String(value.to_owned())
}

fn path(segments: &[&str]) -> Vec<Name> {
    segments.iter().map(|segment| Name::test(segment)).collect()
}

/// The container `{"0": {"1": {"2": "Hello World"}}}`.
fn three_levels(limits: Limits) -> Metadata {
    let mut metadata = Metadata::new();
    metadata
        .insert_with_limits(Name::test("0"), Metadata::new().into(), limits)
        .unwrap();
    metadata
        .nested_insert_with_limits(&path(&["0", "1"]), Metadata::new().into(), limits)
        .unwrap();
    metadata
        .nested_insert_with_limits(&path(&["0", "1", "2"]), text("Hello World"), limits)
        .unwrap();
    metadata
}

#[test]
fn nested_insert_then_get_returns_the_value() {
    let limits = Limits::new(10, 64);
    let mut metadata = three_levels(limits);
    assert_eq!(
        metadata.nested_get(&path(&["0", "1", "2"])),
        Some(&text("Hello World"))
    );
    assert_eq!(
        metadata.nested_insert_with_limits(&path(&["0", "1", "3"]), Value::U32(3), limits),
        Ok(None)
    );
    assert_eq!(metadata.nested_get(&path(&["0", "1", "3"])), Some(&Value::U32(3)));
    assert_eq!(
        metadata.nested_insert_with_limits(&path(&["0", "1", "2"]), Value::Bool(true), limits),
        Ok(Some(text("Hello World")))
    );
    assert_eq!(metadata.nested_get(&path(&["0", "1", "2"])), Some(&Value::Bool(true)));
    assert_eq!(
        metadata.nested_insert_with_limits(&path(&["top"]), Value::U32(1), limits),
        Ok(None)
    );
    assert_eq!(metadata.get(&Name::test("top")), Some(&Value::U32(1)));
    assert_eq!(metadata.nested_get(&path(&["top"])), Some(&Value::U32(1)));
}

#[test]
fn nested_get_reads_containers_too() {
    let metadata = three_levels(Limits::new(10, 64));
    let mut innermost = Metadata::new();
    innermost
        .insert_with_limits(Name::test("2"), text("Hello World"), Limits::new(1, 64))
        .unwrap();
    assert_eq!(
        metadata.nested_get(&path(&["0", "1"])),
        Some(&Value::LimitedMetadata(innermost))
    );
    assert_eq!(metadata.nested_get(&path(&["0"])), metadata.get(&Name::test("0")));
}

#[test]
fn nested_remove_returns_the_value() {
    let mut metadata = three_levels(Limits::new(10, 64));
    assert_eq!(
        metadata.nested_remove(&path(&["0", "1", "2"])),
        Some(text("Hello World"))
    );
    assert_eq!(metadata.nested_get(&path(&["0", "1", "2"])), None);
    assert_eq!(
        metadata.nested_get(&path(&["0", "1"])),
        Some(&Value::LimitedMetadata(Metadata::new()))
    );
    assert_eq!(metadata.nested_remove(&path(&["0", "1", "2"])), None);
    assert!(metadata.nested_remove(&path(&["0"])).is_some());
    assert_eq!(metadata, Metadata::new());
}

#[test]
fn empty_path_is_refused_as_such() {
    let mut metadata = Metadata::new();
    assert_eq!(
        metadata.nested_insert_with_limits(&[], text("0"), Limits::new(12, 12)),
        Err(MetadataError::EmptyPath)
    );
    assert_eq!(
        metadata.nested_insert_with_limits(&[], text("0"), Limits::new(0, 0)),
        Err(MetadataError::EmptyPath)
    );
    assert_eq!(metadata.nested_get(&[]), None);
    assert_eq!(metadata.nested_remove(&[]), None);
    assert_eq!(metadata, Metadata::new());
}

#[test]
fn missing_segment_is_an_error_only_for_insertion() {
    let limits = Limits::new(10, 64);
    let mut metadata = three_levels(limits);
    let before = metadata.clone();
    let bad = path(&["0", "3", "2"]);
    assert_eq!(
        metadata.nested_insert_with_limits(&bad, text("x"), limits),
        Err(MetadataError::MissingIntermediateKey { key: Name::test("3") })
    );
    assert_eq!(metadata.nested_get(&bad), None);
    assert_eq!(metadata.nested_remove(&bad), None);
    assert_eq!(metadata, before);
    assert_eq!(
        metadata.nested_insert_with_limits(&path(&["9", "1"]), text("x"), limits),
        Err(MetadataError::MissingIntermediateKey { key: Name::test("9") })
    );
    assert_eq!(metadata, before);
}

#[test]
fn leaf_segment_is_an_error_only_for_insertion() {
    let limits = Limits::new(10, 64);
    let mut metadata = three_levels(limits);
    let before = metadata.clone();
    let bad = path(&["0", "1", "2", "3"]);
    assert_eq!(
        metadata.nested_insert_with_limits(&bad, text("x"), limits),
        Err(MetadataError::NonContainerSegment { key: Name::test("2") })
    );
    assert_eq!(metadata.nested_get(&bad), None);
    assert_eq!(metadata.nested_remove(&bad), None);
    assert_eq!(metadata, before);
}

#[test]
fn removing_an_absent_path_changes_nothing() {
    let mut metadata = three_levels(Limits::new(10, 64));
    let before = metadata.clone();
    assert_eq!(metadata.nested_remove(&path(&["0", "1", "7"])), None);
    assert_eq!(metadata.nested_remove(&path(&["7"])), None);
    assert_eq!(metadata.nested_remove(&path(&["0", "7", "2"])), None);
    assert_eq!(metadata, before);
}

#[test]
fn nested_size_limit_is_reported() {
    let limits = Limits::new(10, 14);
    let mut metadata = Metadata::new();
    metadata
        .insert_with_limits(Name::test("0"), Metadata::new().into(), limits)
        .unwrap();
    metadata
        .nested_insert_with_limits(&path(&["0", "1"]), Metadata::new().into(), limits)
        .unwrap();
    let before = metadata.clone();
    assert_eq!(
        metadata.nested_insert_with_limits(&path(&["0", "1", "2"]), text("Hello World"), limits),
        Err(MetadataError::EntrySizeExceeded { max: 14, actual: 15 })
    );
    assert_eq!(metadata, before);
}

#[test]
fn full_root_refuses_deeper_insertions() {
    let mut metadata = Metadata::new();
    metadata
        .insert_with_limits(Name::test("0"), Metadata::new().into(), Limits::new(1, 64))
        .unwrap();
    let tight = Limits::new(1, 64);
    assert_eq!(
        metadata.nested_insert_with_limits(&path(&["0", "1"]), Value::U32(1), tight),
        Err(MetadataError::LengthLimitExceeded { max: 1 })
    );
    assert_eq!(metadata.nested_get(&path(&["0", "1"])), None);
    assert_eq!(
        metadata.nested_insert_with_limits(&path(&["0", "1"]), Value::U32(1), Limits::new(2, 64)),
        Ok(None)
    );
    assert_eq!(
        metadata.nested_insert_with_limits(&path(&["0", "1"]), Value::U32(2), tight),
        Err(MetadataError::LengthLimitExceeded { max: 1 })
    );
    assert_eq!(metadata.nested_get(&path(&["0", "1"])), Some(&Value::U32(1)));
}

#[test]
fn full_root_accepts_a_replacement_at_the_root() {
    let mut metadata = Metadata::new();
    let tight = Limits::new(1, 64);
    metadata
        .insert_with_limits(Name::test("a"), Value::U32(1), tight)
        .unwrap();
    assert_eq!(
        metadata.nested_insert_with_limits(&path(&["a"]), Value::U32(2), tight),
        Ok(Some(Value::U32(1)))
    );
    assert_eq!(
        metadata.nested_insert_with_limits(&path(&["b"]), Value::U32(2), tight),
        Err(MetadataError::LengthLimitExceeded { max: 1 })
    );
    assert_eq!(metadata.len(), 1);
}

#[test]
fn full_root_is_reported_before_a_broken_path() {
    let mut metadata = Metadata::new();
    let tight = Limits::new(1, 64);
    metadata
        .insert_with_limits(Name::test("a"), Value::U32(1), tight)
        .unwrap();
    assert_eq!(
        metadata.nested_insert_with_limits(&path(&["x", "y"]), Value::U32(2), tight),
        Err(MetadataError::LengthLimitExceeded { max: 1 })
    );
    assert_eq!(
        metadata.nested_insert_with_limits(&path(&["a", "y"]), Value::U32(2), tight),
        Err(MetadataError::LengthLimitExceeded { max: 1 })
    );
    let roomy = Limits::new(2, 64);
    assert_eq!(
        metadata.nested_insert_with_limits(&path(&["x", "y"]), Value::U32(2), roomy),
        Err(MetadataError::MissingIntermediateKey { key: Name::test("x") })
    );
    assert_eq!(
        metadata.nested_insert_with_limits(&path(&["a", "y"]), Value::U32(2), roomy),
        Err(MetadataError::NonContainerSegment { key: Name::test("a") })
    );
}

#[test]
fn destination_layer_has_its_own_length_limit() {
    let roomy = Limits::new(8, 64);
    let mut inner = Metadata::new();
    inner
        .insert_with_limits(Name::test("a"), Value::U32(1), roomy)
        .unwrap();
    inner
        .insert_with_limits(Name::test("b"), Value::U32(2), roomy)
        .unwrap();
    let mut metadata = Metadata::new();
    metadata
        .insert_with_limits(Name::test("in"), inner.into(), roomy)
        .unwrap();
    let limits = Limits::new(2, 64);
    let before = metadata.clone();
    assert_eq!(
        metadata.nested_insert_with_limits(&path(&["in", "c"]), Value::U32(3), limits),
        Err(MetadataError::LengthLimitExceeded { max: 2 })
    );
    assert_eq!(metadata, before);
    assert_eq!(
        metadata.nested_insert_with_limits(&path(&["in", "b"]), Value::U32(3), limits),
        Ok(Some(Value::U32(2)))
    );
}

#[test]
fn destination_size_is_checked_before_its_length() {
    let roomy = Limits::new(8, 64);
    let mut inner = Metadata::new();
    inner
        .insert_with_limits(Name::test("a"), Value::U32(1), roomy)
        .unwrap();
    let mut metadata = Metadata::new();
    metadata
        .insert_with_limits(Name::test("in"), inner.into(), roomy)
        .unwrap();
    assert_eq!(
        metadata.nested_insert_with_limits(
            &path(&["in", "b"]),
            text("far too long"),
            Limits::new(2, 3)
        ),
        Err(MetadataError::EntrySizeExceeded { max: 3, actual: 16 })
    );
    metadata
        .nested_insert_with_limits(&path(&["in", "b"]), Value::U32(1), roomy)
        .unwrap();
    assert_eq!(
        metadata.nested_insert_with_limits(
            &path(&["in", "c"]),
            text("far too long"),
            Limits::new(2, 3)
        ),
        Err(MetadataError::EntrySizeExceeded { max: 3, actual: 16 })
    );
}

#[test]
fn nested_len_counts_entries_and_values() {
    assert_eq!(Metadata::new().nested_len(), 0);
    assert_eq!(Metadata::new().checked_nested_len(), Some(0));
    let limits = Limits::new(10, 64);
    let mut metadata = Metadata::new();
    metadata
        .insert_with_limits(Name::test("a"), Value::U32(1), limits)
        .unwrap();
    assert_eq!(metadata.nested_len(), 2);
    metadata
        .insert_with_limits(Name::test("b"), Metadata::new().into(), limits)
        .unwrap();
    assert_eq!(metadata.nested_len(), 4);
    metadata
        .nested_insert_with_limits(&path(&["b", "c"]), text("x"), limits)
        .unwrap();
    assert_eq!(metadata.nested_len(), 6);
    assert_eq!(metadata.checked_nested_len(), Some(6));
    assert_eq!(three_levels(limits).nested_len(), 6);
    metadata.nested_remove(&path(&["b", "c"]));
    assert_eq!(metadata.nested_len(), 4);
}

#[test]
fn value_len_is_one_more_than_what_it_holds() {
    assert_eq!(Value::U32(1).len(), 1);
    assert_eq!(Value::U128(1).len(), 1);
    assert_eq!(Value::Bool(true).len(), 1);
    assert_eq!(text("some text").len(), 1);
    assert_eq!(Value::from(Metadata::new()).len(), 1);
    assert_eq!(Value::from(three_levels(Limits::new(10, 64))).len(), 7);
    assert_eq!(Value::from(three_levels(Limits::new(10, 64))).checked_len(), Some(7));
    assert_eq!(text("x").checked_len(), Some(1));
}

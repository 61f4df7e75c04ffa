use metadata::{Limits, Metadata, Name, Value};

#[test]
fn nested_fns_ignore_empty_path() {
    let mut metadata = Metadata::new();
    let empty_path = Vec::new();
    assert!(metadata.nested_get(&empty_path).is_none());
    assert!(metadata
        .nested_insert_with_limits(&empty_path, "0".to_owned().into(), Limits::new(12, 12))
        .is_err());
    assert!(metadata.nested_remove(&empty_path).is_none());
}

#[test]
fn nesting_inserts_removes() {
    let mut metadata = Metadata::new();
    let limits = Limits::new(1024, 1024);
    metadata
        .insert_with_limits(Name::test("0"), Metadata::new().into(), limits)
        .unwrap();
    metadata
        .nested_insert_with_limits(
            &[Name::test("0"), Name::test("1")],
            Metadata::new().into(),
            limits,
        )
        .unwrap();
    let path = [Name::test("0"), Name::test("1"), Name::test("2")];
    metadata
        .nested_insert_with_limits(&path, "Hello World".to_owned().into(), limits)
        .unwrap();
    assert_eq!(
        *metadata.nested_get(&path).unwrap(),
        Value::from("Hello World".to_owned())
    );
    assert_eq!(metadata.nested_len(), 6); // Three nested path segments.
    metadata.nested_remove(&path);
    assert!(metadata.nested_get(&path).is_none());
}

#[test]
fn non_existent_path_segment_fails() {
    let mut metadata = Metadata::new();
    let limits = Limits::new(10, 15);
    metadata
        .insert_with_limits(Name::test("0"), Metadata::new().into(), limits)
        .unwrap();
    metadata
        .nested_insert_with_limits(
            &[Name::test("0"), Name::test("1")],
            Metadata::new().into(),
            limits,
        )
        .unwrap();
    let path = vec![Name::test("0"), Name::test("1"), Name::test("2")];
    metadata
        .nested_insert_with_limits(&path, "Hello World".to_owned().into(), limits)
        .unwrap();
    let bad_path = vec![Name::test("0"), Name::test("3"), Name::test("2")];
    assert!(metadata
        .nested_insert_with_limits(&bad_path, "Hello World".to_owned().into(), limits)
        .is_err());
    assert!(metadata.nested_get(&bad_path).is_none());
    assert!(metadata.nested_remove(&bad_path).is_none());
}

#[test]
fn nesting_respects_limits() -> eyre::Result<()> {
    let mut metadata = Metadata::new();
    let limits = Limits::new(10, 14);
    metadata
        .insert_with_limits(Name::test("0"), Metadata::new().into(), limits)
        .map_err(|error| eyre::Report::msg(format!("{error:?}")))?;
    metadata
        .nested_insert_with_limits(
            &[Name::test("0"), Name::test("1")],
            Metadata::new().into(),
            limits,
        )
        .map_err(|error| eyre::Report::msg(format!("{error:?}")))?;
    let path = vec![Name::test("0"), Name::test("1"), Name::test("2")];
    let failing_insert =
        metadata.nested_insert_with_limits(&path, "Hello World".to_owned().into(), limits);
    match failing_insert {
        Err(_) => Ok(()),
        Ok(_) => Err(eyre::Report::msg("Insertion should have failed.")),
    }
}

#[test]
fn insert_exceeds_entry_size() {
    let mut metadata = Metadata::new();
    let limits = Limits::new(10, 5);
    assert!(metadata
        .insert_with_limits(Name::test("1"), "2".to_owned().into(), limits)
        .is_ok());
    assert!(metadata
        .insert_with_limits(Name::test("1"), "23456".to_owned().into(), limits)
        .is_err());
}

#[test]
fn insert_exceeds_len() {
    let mut metadata = Metadata::new();
    let limits = Limits::new(2, 5);
    assert!(metadata
        .insert_with_limits(Name::test("1"), "0".to_owned().into(), limits)
        .is_ok());
    assert!(metadata
        .insert_with_limits(Name::test("2"), "0".to_owned().into(), limits)
        .is_ok());
    assert!(metadata
        .insert_with_limits(Name::test("2"), "1".to_owned().into(), limits)
        .is_ok());
    assert!(metadata
        .insert_with_limits(Name::test("3"), "0".to_owned().into(), limits)
        .is_err());
}

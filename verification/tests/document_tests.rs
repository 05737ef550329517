use hoi4_parser::{parse, Entry, EntryMetadata, ObjectNode, Value};

#[test]
fn parse_empty_input_should_fail() {
    let result = parse("   \n\t");
    assert!(result.is_err());
}

#[test]
fn ast_object_should_keep_duplicate_key_metadata() {
    let mut object = ObjectNode::default();
    object.push(Entry::new("name", Value::Scalar("alpha".to_string())));
    object.push(Entry::with_metadata(
        "name",
        Value::Scalar("beta".to_string()),
        EntryMetadata {
            duplicate_index: Some(1),
            duplicate_suffix: Some("$$1".to_string()),
            nested_quoted: false,
        },
    ));

    assert_eq!(object.entries().len(), 2);
    assert_eq!(object.entries()[1].key(), "name");
    assert_eq!(object.entries()[1].metadata().duplicate_index, Some(1));
}

#[test]
fn parse_keeps_source_text() {
    let doc = parse("a = b").expect("parse should succeed");
    assert_eq!(doc.as_source(), "a = b");
    assert!(matches!(doc.root(), Value::Object(o) if o.entries().len() == 1));
}

#[test]
fn parse_reports_unclosed_string() {
    let err = parse("a = \"b").expect_err("parse should fail");
    assert_eq!(err.to_string(), "解析失败: 字符串未闭合");
}

#[test]
fn entry_metadata_can_be_replaced_or_edited_in_place() {
    let mut entry = Entry::new("name", Value::Scalar("alpha".to_string()));
    entry.set_metadata(EntryMetadata {
        duplicate_index: Some(2),
        duplicate_suffix: Some("$$2".to_string()),
        nested_quoted: false,
    });
    assert_eq!(entry.metadata().duplicate_index, Some(2));
    entry.metadata_mut().nested_quoted = true;
    assert!(entry.metadata().nested_quoted);
    assert_eq!(entry.metadata().duplicate_suffix.as_deref(), Some("$$2"));
    assert_eq!(entry.key(), "name");
    assert_eq!(entry.value(), &Value::Scalar("alpha".to_string()));
}

use hoi4_parser::{decode_nested_quoted, encode_nested_quoted};

#[test]
fn should_decode_nested_string() {
    let decoded = decode_nested_quoted("\"a = { b = \\\"x\\\" }\"").expect("should decode");
    assert_eq!(decoded, "a = { b = \"x\" }");
}

#[test]
fn should_encode_nested_string() {
    let encoded = encode_nested_quoted("a = { b = \"x\" }");
    assert_eq!(encoded, "\"a = { b = \\\"x\\\" }\"");
}

#[test]
fn decode_refuses_text_without_escaped_quotes() {
    assert_eq!(decode_nested_quoted("\"plain\""), None);
    assert_eq!(decode_nested_quoted("plain \\\" x"), None);
}

#[test]
fn encode_turns_newlines_into_spaces() {
    assert_eq!(encode_nested_quoted("a\nb"), "\"a b\"");
}

#[test]
fn decode_reads_back_what_encode_writes() {
    let original = "x = \"y\" z = \\w";
    let encoded = encode_nested_quoted(original);
    assert_eq!(decode_nested_quoted(&encoded).as_deref(), Some(original));
}

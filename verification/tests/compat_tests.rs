use hoi4_parser::{
    escape_scalar_for_generate, export_entry, export_key, normalize_scalar_for_parse,
    restore_compat_operators, Entry, EntryMetadata, Value,
};

#[test]
fn should_append_suffix_when_compat_enabled() {
    let entry = Entry::with_metadata(
        "name",
        Value::Scalar("beta".to_string()),
        EntryMetadata {
            duplicate_index: Some(1),
            duplicate_suffix: Some("$$1".to_string()),
            nested_quoted: false,
        },
    );

    assert_eq!(export_key(&entry, true), "name$$1");
    assert_eq!(export_key(&entry, false), "name");
}

#[test]
fn should_escape_and_restore_scalar_symbols() {
    let escaped = escape_scalar_for_generate("a:[x] >= b");
    assert_eq!(escaped, "a--%%x!! &gte; b");

    let normalized = normalize_scalar_for_parse(&escaped);
    assert_eq!(normalized, "a:[x] >= b");
}

#[test]
fn should_strip_trailing_comma_on_trait_like_token() {
    assert_eq!(
        normalize_scalar_for_parse("trait_cautious,"),
        "trait_cautious"
    );
}

#[test]
fn should_not_strip_comma_when_token_has_structure() {
    assert_eq!(normalize_scalar_for_parse("foo(x),"), "foo(x),");
}

#[test]
fn should_restore_operator_style_output() {
    let text = "value = &gt;\nvalue = &lte;";
    let restored = restore_compat_operators(text);
    assert_eq!(restored, "value >\nvalue <=");
}

#[test]
fn should_restore_bracket_and_colon_symbols() {
    let text = "token = %%From.GetID!!\npath = core--china";
    let restored = restore_compat_operators(text);
    assert_eq!(restored, "token = [From.GetID]\npath = core:china");
}

#[test]
fn should_unquote_macro_tokens_generically() {
    let text =
        "foo = \"BLITZKRIEG_NAME\"\nbar = \"BLITZKRIEG_DESC\"\nany = \"GFX_select_date_1939\"";
    let restored = restore_compat_operators(text);
    assert_eq!(
        restored,
        "foo = BLITZKRIEG_NAME\nbar = BLITZKRIEG_DESC\nany = GFX_select_date_1939"
    );
}

#[test]
fn export_entry_copies_value_and_suffixes_key() {
    let entry = Entry::with_metadata(
        "name",
        Value::Scalar("beta".to_string()),
        EntryMetadata {
            duplicate_index: Some(2),
            duplicate_suffix: Some("$$2".to_string()),
            nested_quoted: false,
        },
    );
    let (key, value) = export_entry(&entry, true);
    assert_eq!(key, "name$$2");
    assert_eq!(value, Value::Scalar("beta".to_string()));
}

#[test]
fn restore_leaves_plain_text_untouched() {
    assert_eq!(restore_compat_operators("a = b\n"), "a = b\n");
}

#[test]
fn restore_drops_trailing_newline_when_rewriting() {
    assert_eq!(restore_compat_operators("a = &gt;\n"), "a >");
}

#[test]
fn escape_covers_every_symbol() {
    assert_eq!(escape_scalar_for_generate("a<b"), "a&lt;b");
    assert_eq!(escape_scalar_for_generate("a<=b"), "a&lte;b");
    assert_eq!(escape_scalar_for_generate("a==b"), "a&eqeq;b");
    assert_eq!(escape_scalar_for_generate("]"), "!!");
    assert_eq!(escape_scalar_for_generate("plain"), "plain");
}

#[test]
fn normalize_decodes_every_marker() {
    assert_eq!(normalize_scalar_for_parse("&lt;&gt;&eqeq;&lte;"), "<>==<=");
    assert_eq!(normalize_scalar_for_parse("x,"), "x");
    assert_eq!(normalize_scalar_for_parse(","), ",");
}

#[test]
fn escaping_twice_is_escaping_once() {
    let once = hoi4_parser::escape_scalar_for_generate("a:b [x] >= 1 == <2>");
    assert_eq!(hoi4_parser::escape_scalar_for_generate(&once), once);
}

#[test]
fn escaped_text_holds_no_double_equals() {
    let out = escape_scalar_for_generate("a === b == c");
    assert!(!out.contains("=="));
    assert!(!out.contains(':') && !out.contains('<') && !out.contains('>'));
}

#[test]
fn escaping_keeps_exactly_the_texts_free_of_symbols() {
    assert_eq!(escape_scalar_for_generate("plain = text"), "plain = text");
    assert_ne!(escape_scalar_for_generate("a == b"), "a == b");
    assert_ne!(escape_scalar_for_generate("x:y"), "x:y");
}

use hoi4_parser::generator::{trim_numeric_scalar_like_java, trim_template_counter_scalar_like_java};
use hoi4_parser::{generate, generate_document, parse, Document, Entry, EntryMetadata, ObjectNode, Value};

fn scalar(s: &str) -> Value {
    Value::Scalar(s.to_string())
}

fn doc_with(entries: Vec<Entry>) -> Document {
    let mut root = ObjectNode::default();
    for e in entries {
        root.push(e);
    }
    Document::new(Value::Object(root), "")
}

#[test]
fn should_generate_basic_object() {
    let mut root = ObjectNode::default();
    root.push(Entry::new("tag", Value::Scalar("CHI".to_string())));
    let document = Document::new(Value::Object(root), "tag = CHI");

    let rendered = generate_document(&document).expect("generate should succeed");
    assert_eq!(rendered, "tag = CHI");
}

#[test]
fn should_render_empty_keyed_object_as_multiline_block() {
    let mut root = ObjectNode::default();
    root.push(Entry::new("available", Value::Object(ObjectNode::default())));
    let document = Document::new(Value::Object(root), "");

    let rendered = generate_document(&document).expect("generate should succeed");
    assert_eq!(rendered, "available = {\n}");
}

#[test]
fn should_render_empty_keyed_array_as_multiline_block() {
    let mut root = ObjectNode::default();
    root.push(Entry::new("names", Value::Array(Vec::new())));
    let document = Document::new(Value::Object(root), "");

    let rendered = generate_document(&document).expect("generate should succeed");
    assert_eq!(rendered, "names = {\n}");
}

#[test]
fn should_emit_multiline_array_scalar_as_one_line_per_token_including_curly_quotes() {
    let mut male = ObjectNode::default();
    male.push(Entry::new(
        "names",
        Value::Array(vec![Value::Scalar(format!(
            "Okna Tsahan {}Lha-bzang{} Alexei",
            '\u{201c}', '\u{201d}'
        ))]),
    ));
    let mut kal = ObjectNode::default();
    kal.push(Entry::new("male", Value::Object(male)));
    let mut root = ObjectNode::default();
    root.push(Entry::new("KAL", Value::Object(kal)));
    let document = Document::new(Value::Object(root), "");

    let rendered = generate_document(&document).expect("generate should succeed");
    assert!(
        rendered.contains("\t\tnames = {\n\t\t\tOkna\n"),
        "expected one name per line, got:\n{rendered}"
    );
    assert!(rendered.contains("\t\t\tTsahan\n"));
    assert!(rendered.contains("Lha-bzang"));
    assert!(rendered.contains("\t\t\tAlexei\n"));
}

#[test]
fn should_generate_nested_quoted_when_flag_enabled() {
    let mut nested = ObjectNode::default();
    nested.push(Entry::new("name", Value::Scalar("\"x\"".to_string())));

    let entry = Entry::with_metadata(
        "effect",
        Value::Object(nested),
        EntryMetadata {
            duplicate_index: None,
            duplicate_suffix: None,
            nested_quoted: true,
        },
    );

    let mut root = ObjectNode::default();
    root.push(entry);
    let document = Document::new(Value::Object(root), "");

    let rendered = generate_document(&document).expect("generate should succeed");
    assert_eq!(rendered, "effect = \"name = \\\"x\\\"\"");
}

#[test]
fn should_emit_comparison_attached_to_identifier_spaced_single_line() {
    let mut root = ObjectNode::default();
    root.push(Entry::new(
        "trigger",
        Value::Array(vec![
            Value::Scalar("threat".to_string()),
            Value::Scalar(">0.24".to_string()),
        ]),
    ));
    let document = Document::new(Value::Object(root), "");

    let rendered = generate_document(&document).expect("generate should succeed");
    assert!(
        rendered.contains("threat > 0.24"),
        "expected spaced comparison, got:\n{rendered}"
    );
}

#[test]
fn should_trim_trailing_zeroes_for_direct_numeric_scalars() {
    let mut ai_will_do = ObjectNode::default();
    ai_will_do.push(Entry::new("factor", Value::Scalar("1.000".to_string())));
    ai_will_do.push(Entry::new("ratio", Value::Scalar("0.0100".to_string())));
    ai_will_do.push(Entry::new("untouched", Value::Scalar("42".to_string())));
    ai_will_do.push(Entry::new("template_counter", Value::Scalar("06".to_string())));

    let mut root = ObjectNode::default();
    root.push(Entry::new("ai_will_do", Value::Object(ai_will_do)));
    let document = Document::new(Value::Object(root), "");

    let rendered = generate_document(&document).expect("generate should succeed");
    assert!(rendered.contains("factor = 1"));
    assert!(rendered.contains("ratio = 0.01"));
    assert!(rendered.contains("untouched = 42"));
    assert!(rendered.contains("template_counter = 6"));
}

#[test]
fn should_trim_trailing_zeroes_inside_nested_quoted_payload() {
    let mut nested = ObjectNode::default();
    nested.push(Entry::new("factor", Value::Scalar("1.000".to_string())));
    nested.push(Entry::new("ratio", Value::Scalar("0.0100".to_string())));
    nested.push(Entry::new("template_counter", Value::Scalar("07".to_string())));

    let entry = Entry::with_metadata(
        "effect",
        Value::Object(nested),
        EntryMetadata {
            duplicate_index: None,
            duplicate_suffix: None,
            nested_quoted: true,
        },
    );

    let mut root = ObjectNode::default();
    root.push(entry);
    let document = Document::new(Value::Object(root), "");

    let rendered = generate_document(&document).expect("generate should succeed");
    assert_eq!(rendered, "effect = \"factor = 1 ratio = 0.01 template_counter = 7\"");
}

#[test]
fn should_only_treat_plain_decimal_scalars_as_trim_candidates() {
    assert_eq!(trim_numeric_scalar_like_java("1.000"), "1");
    assert_eq!(trim_numeric_scalar_like_java("-0.5000"), "-0.5");
    assert_eq!(trim_numeric_scalar_like_java("< 0.50"), "< 0.5");
    assert_eq!(trim_numeric_scalar_like_java(">=0.50"), ">=0.5");
    assert_eq!(trim_numeric_scalar_like_java("1"), "1");
    assert_eq!(trim_numeric_scalar_like_java("\"1.000\""), "\"1.000\"");
    assert_eq!(trim_numeric_scalar_like_java("1965.1.1.1"), "1965.1.1.1");
}

#[test]
fn should_trim_template_counter_leading_zeroes_only_for_that_key() {
    assert_eq!(trim_template_counter_scalar_like_java("template_counter", "06"), "6");
    assert_eq!(trim_template_counter_scalar_like_java("template_counter", "002"), "2");
    assert_eq!(trim_template_counter_scalar_like_java("template_counter", "0"), "0");
    assert_eq!(trim_template_counter_scalar_like_java("template_counter", "67"), "67");
    assert_eq!(trim_template_counter_scalar_like_java("factor", "06"), "06");
}

#[test]
fn should_trim_trailing_zeroes_for_operator_expression_scalars() {
    let mut limit = ObjectNode::default();
    limit.push(Entry::new("has_war_support", Value::Scalar("< 0.50".to_string())));

    let mut root = ObjectNode::default();
    root.push(Entry::new("limit", Value::Object(limit)));
    let document = Document::new(Value::Object(root), "");

    let rendered = generate_document(&document).expect("generate should succeed");
    assert!(rendered.contains("has_war_support = &lt; 0.5"));
}

#[test]
fn should_trim_trailing_zeroes_for_attached_operator_pairs() {
    let mut root = ObjectNode::default();
    root.push(Entry::new(
        "trigger",
        Value::Array(vec![
            Value::Scalar("has_war_support".to_string()),
            Value::Scalar("<0.50".to_string()),
        ]),
    ));
    let document = Document::new(Value::Object(root), "");

    let rendered = generate_document(&document).expect("generate should succeed");
    assert!(rendered.contains("has_war_support < 0.5"));
}

#[test]
fn parse_and_generate_round_trip_source() {
    let source = "country = { tag = CHI }";
    let doc = parse(source).expect("parse should succeed");
    let output = generate(&doc).expect("generate should succeed");
    let expected = "country = {\n\ttag = CHI\n}";
    assert_eq!(output, expected);
    assert!(matches!(doc.root(), Value::Object(_)));
}

#[test]
fn round_trip_should_keep_semantic_ast() {
    let source = "country = { name = \"China\" name = \"PRC\" effect = \"set_var = { key = \\\"x\\\" value = 1 }\" }";
    let first_doc = parse(source).expect("first parse should succeed");
    let regenerated = generate(&first_doc).expect("generate should succeed");
    let second_doc = parse(&regenerated).expect("second parse should succeed");

    assert_eq!(first_doc.root(), second_doc.root());
}

#[test]
fn generate_refuses_empty_root_without_source() {
    let document = Document::new(Value::Object(ObjectNode::default()), "");
    match generate(&document) {
        Err(e) => assert_eq!(e.to_string(), "还原失败: 文档为空，无法还原"),
        Ok(s) => panic!("expected an error, got {s:?}"),
    }
}

#[test]
fn generate_writes_empty_root_with_source_as_nothing() {
    let document = Document::new(Value::Object(ObjectNode::default()), "x");
    assert_eq!(generate(&document).expect("generate should succeed"), "");
}

#[test]
fn generate_restores_escaped_comparisons() {
    let document = doc_with(vec![Entry::new("has_war_support", scalar("< 0.50"))]);
    assert_eq!(generate(&document).expect("generate"), "has_war_support < 0.5");
}

#[test]
fn single_expression_list_stays_on_one_line() {
    let document = doc_with(vec![Entry::new(
        "limit",
        Value::Array(vec![scalar("x"), scalar(">"), scalar("1.50")]),
    )]);
    assert_eq!(generate_document(&document).unwrap(), "limit = {\n\tx > 1.5\n}");
}

#[test]
fn plain_name_list_is_written_one_per_line() {
    let document = doc_with(vec![Entry::new(
        "tags",
        Value::Array(vec![scalar("GER"), scalar("SLO"), scalar("ITA")]),
    )]);
    assert_eq!(generate_document(&document).unwrap(), "tags = {\n\tGER\n\tSLO\n\tITA\n}");
}

#[test]
fn name_equals_block_opens_a_keyed_block() {
    let mut inner = ObjectNode::default();
    inner.push(Entry::new("tag", scalar("GER")));
    let document = doc_with(vec![Entry::new(
        "any",
        Value::Array(vec![scalar("limit ="), Value::AnonymousObject(inner)]),
    )]);
    assert_eq!(
        generate_document(&document).unwrap(),
        "any = {\n\tlimit = {\n\t\ttag = GER\n\t}\n}"
    );
}

#[test]
fn name_then_equals_then_block_splits_prefix_names() {
    let mut inner = ObjectNode::default();
    inner.push(Entry::new("tag", scalar("GER")));
    let document = doc_with(vec![Entry::new(
        "any",
        Value::Array(vec![scalar("NOT limit"), scalar("="), Value::Object(inner)]),
    )]);
    assert_eq!(
        generate_document(&document).unwrap(),
        "any = {\n\tNOT\n\tlimit = {\n\t\ttag = GER\n\t}\n}"
    );
}

#[test]
fn anonymous_block_item_is_written_as_braces_on_own_lines() {
    let mut inner = ObjectNode::default();
    inner.push(Entry::new("a", scalar("1")));
    let document = doc_with(vec![Entry::new(
        "list",
        Value::Array(vec![Value::AnonymousObject(inner), scalar("x")]),
    )]);
    assert_eq!(
        generate_document(&document).unwrap(),
        "list = {\n\t{\n\t\ta = 1\n\t}\n\tx\n}"
    );
}

#[test]
fn color_scalar_is_written_as_a_block() {
    let document = doc_with(vec![Entry::new("color", scalar("rgb { 10 20 30 }"))]);
    assert_eq!(
        generate_document(&document).unwrap(),
        "color = {\n\trgb\n\t10\n\t20\n\t30\n}"
    );
}

#[test]
fn quoted_underscore_scalar_loses_its_quotes() {
    let document = doc_with(vec![
        Entry::new("name", scalar("\"GER_name\"")),
        Entry::new("title", scalar("\"a b_c\"")),
    ]);
    assert_eq!(
        generate_document(&document).unwrap(),
        "name = GER_name\ntitle = \"a b_c\""
    );
}

#[test]
fn quoted_script_scalar_is_canonicalized() {
    let document = doc_with(vec![Entry::new("effect", scalar("\"a = \\\"b\\\"\n c = d\""))]);
    assert_eq!(
        generate_document(&document).unwrap(),
        "effect = \"a = \\\"b\\\" c = d\""
    );
}

#[test]
fn inline_list_value_of_nested_entry_uses_braces() {
    let entry = Entry::with_metadata(
        "effect",
        Value::Array(vec![scalar("a"), scalar("b")]),
        EntryMetadata { duplicate_index: None, duplicate_suffix: None, nested_quoted: true },
    );
    let document = doc_with(vec![entry]);
    assert_eq!(generate_document(&document).unwrap(), "effect = \"{ a b }\"");
}

#[test]
fn anonymous_root_is_written_as_an_object() {
    let mut root = ObjectNode::default();
    root.push(Entry::new("a", scalar("1")));
    let document = Document::new(Value::AnonymousObject(root), "");
    assert_eq!(generate_document(&document).unwrap(), "a = 1");
    let empty = Document::new(Value::AnonymousObject(ObjectNode::default()), "");
    assert_eq!(generate_document(&empty).unwrap(), "{}");
}

#[test]
fn scalar_root_is_escaped() {
    let document = Document::new(scalar("a:b"), "");
    assert_eq!(generate_document(&document).unwrap(), "a--b");
}

#[test]
fn operator_numeric_trim_keeps_spacing() {
    assert_eq!(trim_numeric_scalar_like_java(">=  2.50 "), ">=  2.5 ");
    assert_eq!(trim_numeric_scalar_like_java("!=0.0"), "!=0");
    assert_eq!(trim_numeric_scalar_like_java("+3.10"), "+3.1");
    assert_eq!(trim_numeric_scalar_like_java(".50"), ".50");
}

#[test]
fn plain_lists_numbers_and_dates_come_back_unchanged() {
    let mut inner = ObjectNode::default();
    inner.push(Entry::new("add_political_power", scalar("-50")));
    inner.push(Entry::new("factor", scalar("0.25")));
    let entries = vec![
        Entry::new("1936.1.1", Value::Object(inner)),
        Entry::new(
            "allowed_tags",
            Value::Array(vec![scalar("GER"), scalar("ITA"), scalar("JAP")]),
        ),
        Entry::new("single", Value::Array(vec![scalar("rgb")])),
        Entry::new("name", scalar("first")),
        Entry::with_metadata(
            "name",
            scalar("second"),
            EntryMetadata {
                duplicate_index: Some(1),
                duplicate_suffix: Some("$$1".to_string()),
                nested_quoted: false,
            },
        ),
    ];
    let document = doc_with(entries);
    let text = generate(&document).expect("generate should succeed");
    assert_eq!(
        text,
        "1936.1.1 = {\n\tadd_political_power = -50\n\tfactor = 0.25\n}\nallowed_tags = {\n\tGER\n\tITA\n\tJAP\n}\nsingle = {\n\trgb\n}\nname = first\nname = second"
    );
    let back = parse(&text).expect("parse should succeed");
    assert_eq!(back.root(), document.root());
}

#[test]
fn anonymous_blocks_in_lists_come_back_unchanged() {
    let mut first = ObjectNode::default();
    first.push(Entry::new("id", scalar("1")));
    let mut second = ObjectNode::default();
    second.push(Entry::new("id", scalar("2")));
    second.push(Entry::new("tags", Value::Array(vec![scalar("a"), scalar("b")])));
    let entries = vec![Entry::new(
        "items",
        Value::Array(vec![
            Value::AnonymousObject(first),
            scalar("plain"),
            Value::AnonymousObject(second),
            Value::AnonymousObject(ObjectNode::default()),
        ]),
    )];
    let document = doc_with(entries);
    let text = generate(&document).expect("generate should succeed");
    assert_eq!(
        text,
        "items = {\n\t{\n\t\tid = 1\n\t}\n\tplain\n\t{\n\t\tid = 2\n\t\ttags = {\n\t\t\ta\n\t\t\tb\n\t\t}\n\t}\n\t{\n\t}\n}"
    );
    let back = parse(&text).expect("parse should succeed");
    assert_eq!(back.root(), document.root());
}

#[test]
fn quoted_values_come_back_unchanged() {
    let entries = vec![
        Entry::new("name", scalar("\"Republic of China\"")),
        Entry::new("effect", scalar("\"x\"")),
        Entry::new("long_key_name", scalar("\"1936.1.1 - 1939.9.1\"")),
    ];
    let document = doc_with(entries);
    let text = generate(&document).expect("generate should succeed");
    assert_eq!(
        text,
        "name = \"Republic of China\"\neffect = \"x\"\nlong_key_name = \"1936.1.1 - 1939.9.1\""
    );
    let back = parse(&text).expect("parse should succeed");
    assert_eq!(back.root(), document.root());
}

#[test]
fn quoted_list_items_come_back_unchanged() {
    let entries = vec![Entry::new(
        "names",
        Value::Array(vec![scalar("\"Alpha\""), scalar("beta"), scalar("\"1.5\"")]),
    )];
    let document = doc_with(entries);
    let text = generate(&document).expect("generate should succeed");
    assert_eq!(text, "names = {\n\t\"Alpha\"\n\tbeta\n\t\"1.5\"\n}");
    let back = parse(&text).expect("parse should succeed");
    assert_eq!(back.root(), document.root());
}

#[test]
fn color_scalars_read_back_as_the_same_colors() {
    let document = doc_with(vec![
        Entry::new("color", scalar("rgb { 153 0 51 }")),
        Entry::new("tint", scalar("HSV { 0.5 1 0.25 }")),
        Entry::new("shade", scalar("hsv { 0.50 1.0 0.2 }")),
        Entry::new("name", scalar("x")),
    ]);
    let text = generate(&document).unwrap();
    let back = parse(&text).unwrap();
    assert_eq!(back.root(), document.root());
}

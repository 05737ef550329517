use hoi4_parser::parser::parse_root;
use hoi4_parser::tokenizer::tokenize;
use hoi4_parser::{export_key, Value};

#[test]
fn should_parse_nested_object() {
    let input = "country = { tag = CHI name = \"China\" }";
    let tokens = tokenize(input).expect("tokenize should succeed");
    let root = parse_root(&tokens).expect("parse should succeed");
    match root {
        Value::Object(root_object) => {
            assert_eq!(root_object.entries().len(), 1);
            assert_eq!(root_object.entries()[0].key(), "country");
        }
        _ => panic!("root should be object"),
    }
}

#[test]
fn should_tolerate_missing_rbrace_for_object_at_eof() {
    let input = "country = { tag = CHI";
    let tokens = tokenize(input).expect("tokenize should succeed");
    let root = parse_root(&tokens).expect("parse should succeed");
    let Value::Object(root_object) = root else {
        panic!("root should be object");
    };
    assert_eq!(root_object.entries().len(), 1);
    assert_eq!(root_object.entries()[0].key(), "country");
    assert!(matches!(
        root_object.entries()[0].value(),
        Value::Object(object) if object.entries().len() == 1
    ));
}

#[test]
fn should_record_duplicate_metadata_for_same_scope() {
    let input = "name = alpha\nname = beta";
    let tokens = tokenize(input).expect("tokenize should succeed");
    let root = parse_root(&tokens).expect("parse should succeed");
    let Value::Object(root_object) = root else {
        panic!("root should be object");
    };

    assert_eq!(root_object.entries().len(), 2);
    let first = &root_object.entries()[0];
    let second = &root_object.entries()[1];

    assert_eq!(first.metadata().duplicate_index, None);
    assert_eq!(second.metadata().duplicate_index, Some(1));
    assert_eq!(export_key(second, true), "name$$1");
}

#[test]
fn should_parse_nested_quoted_object_and_mark_metadata() {
    let input = "effect = \"set_variable = { name = \\\"x\\\" value = 1 }\"";
    let tokens = tokenize(input).expect("tokenize should succeed");
    let root = parse_root(&tokens).expect("parse should succeed");
    let Value::Object(root_object) = root else {
        panic!("root should be object");
    };

    let effect_entry = &root_object.entries()[0];
    assert!(effect_entry.metadata().nested_quoted);
    assert!(matches!(effect_entry.value(), Value::Object(_)));
}

#[test]
fn should_parse_nested_quoted_division_payload_and_mark_metadata() {
    let input =
        "division = \"name = \\\"Sikh Division\\\" division_template = \\\"Sikh Division\\\"\"";
    let tokens = tokenize(input).expect("tokenize should succeed");
    let root = parse_root(&tokens).expect("parse should succeed");
    let Value::Object(root_object) = root else {
        panic!("root should be object");
    };

    let division_entry = &root_object.entries()[0];
    assert!(division_entry.metadata().nested_quoted);
    let Value::Object(division_object) = division_entry.value() else {
        panic!("division payload should be parsed as object");
    };
    assert_eq!(division_object.entries().len(), 2);
    assert!(matches!(
        division_object.entries()[0].value(),
        Value::Scalar(v) if v == "\"Sikh Division\""
    ));
    assert!(matches!(
        division_object.entries()[1].value(),
        Value::Scalar(v) if v == "\"Sikh Division\""
    ));
}

#[test]
fn should_parse_object_with_string_literal_key() {
    let input = "air_wings = { \"USS Enterprise\" = { version_name = \"F3F\" } }";
    let tokens = tokenize(input).expect("tokenize should succeed");
    let root = parse_root(&tokens).expect("parse should succeed");
    let Value::Object(root_object) = root else {
        panic!("root should be object");
    };
    let Value::Object(air_wings) = root_object.entries()[0].value() else {
        panic!("air_wings should be object");
    };
    assert_eq!(air_wings.entries().len(), 1);
    assert_eq!(air_wings.entries()[0].key(), "\"USS Enterprise\"");
    assert!(matches!(air_wings.entries()[0].value(), Value::Object(_)));
}

#[test]
fn should_parse_operator_expression_as_scalar_sequence() {
    let input = "trigger = >= 0.35";
    let tokens = tokenize(input).expect("tokenize should succeed");
    let root = parse_root(&tokens).expect("parse should succeed");
    let Value::Object(root_object) = root else {
        panic!("root should be object");
    };
    assert!(matches!(
        root_object.entries()[0].value(),
        Value::Scalar(v) if v == ">= 0.35"
    ));
}

#[test]
fn should_parse_array_style_block() {
    let input = "names = { \"A\" \"B\" \"C\" }";
    let tokens = tokenize(input).expect("tokenize should succeed");
    let root = parse_root(&tokens).expect("parse should succeed");
    let Value::Object(root_object) = root else {
        panic!("root should be object");
    };
    assert!(matches!(
        root_object.entries()[0].value(),
        Value::Array(items) if items.len() == 3
    ));
}

#[test]
fn should_parse_anonymous_object_inside_array_style_block() {
    let input = "optional_assets = { { icon = \"GFX_ship\" model = \"ship_entity\" } }";
    let tokens = tokenize(input).expect("tokenize should succeed");
    let root = parse_root(&tokens).expect("parse should succeed");
    let Value::Object(root_object) = root else {
        panic!("root should be object");
    };
    let Value::Array(items) = root_object.entries()[0].value() else {
        panic!("optional_assets should be array");
    };
    assert_eq!(items.len(), 1);
    let Value::AnonymousObject(asset) = &items[0] else {
        panic!("array item should be anonymous object");
    };
    assert_eq!(asset.entries().len(), 2);
    assert_eq!(asset.entries()[0].key(), "icon");
    assert_eq!(asset.entries()[1].key(), "model");
}

#[test]
fn should_keep_curly_quoted_phrase_when_multiline_array_splits_across_newline() {
    let input = "callsigns = {\n\t\t“Sapa\n\t\tInca”\n\t\tAymara\n\t}";
    let tokens = tokenize(input).expect("tokenize should succeed");
    let root = parse_root(&tokens).expect("parse should succeed");
    let Value::Object(root_object) = root else {
        panic!("root should be object");
    };
    let Value::Array(items) = root_object.entries()[0].value() else {
        panic!("expected array");
    };
    assert_eq!(items.len(), 2, "expected one scalar for Sapa Inca + Aymara");
    let Value::Scalar(s0) = &items[0] else {
        panic!("first item scalar");
    };
    assert_eq!(s0, "“Sapa Inca”");
    let Value::Scalar(s1) = &items[1] else {
        panic!("second item scalar");
    };
    assert_eq!(s1, "Aymara");
}

#[test]
fn should_merge_curly_quoted_phrase_split_by_space_on_one_line() {
    let input = "callsigns = { “Sapa Inca” Aymara }";
    let tokens = tokenize(input).expect("tokenize should succeed");
    let root = parse_root(&tokens).expect("parse should succeed");
    let Value::Object(root_object) = root else {
        panic!("root should be object");
    };
    let Value::Array(items) = root_object.entries()[0].value() else {
        panic!("expected array");
    };
    assert_eq!(items.len(), 2);
    let Value::Scalar(s0) = &items[0] else {
        panic!("first scalar");
    };
    assert_eq!(s0, "“Sapa Inca”");
    assert!(matches!(&items[1], Value::Scalar(s) if s == "Aymara"));
}

#[test]
fn should_parse_rgb_block_as_scalar_sequence() {
    let input = "color = rgb { 153 0 51 }";
    let tokens = tokenize(input).expect("tokenize should succeed");
    let root = parse_root(&tokens).expect("parse should succeed");
    let Value::Object(root_object) = root else {
        panic!("root should be object");
    };
    assert!(matches!(
        root_object.entries()[0].value(),
        Value::Scalar(v) if v == "rgb { 153 0 51 }"
    ));
}

#[test]
fn should_parse_braced_rgb_block_as_scalar_sequence() {
    let input = "color = { rgb 153 0 51 }";
    let tokens = tokenize(input).expect("tokenize should succeed");
    let root = parse_root(&tokens).expect("parse should succeed");
    let Value::Object(root_object) = root else {
        panic!("root should be object");
    };
    assert!(matches!(
        root_object.entries()[0].value(),
        Value::Scalar(v) if v == "rgb { 153 0 51 }"
    ));
}

#[test]
fn should_parse_braced_hsv_block_as_scalar_sequence() {
    let input = "color = { HSV 0.1 0.15 0.4 }";
    let tokens = tokenize(input).expect("tokenize should succeed");
    let root = parse_root(&tokens).expect("parse should succeed");
    let Value::Object(root_object) = root else {
        panic!("root should be object");
    };
    assert!(matches!(
        root_object.entries()[0].value(),
        Value::Scalar(v) if v == "HSV { 0.1 0.15 0.4 }"
    ));
}

#[test]
fn should_allow_newline_between_key_and_equals() {
    let input = "foo\n= bar";
    let tokens = tokenize(input).expect("tokenize should succeed");
    let root = parse_root(&tokens).expect("parse should succeed");
    let Value::Object(root_object) = root else {
        panic!("root should be object");
    };
    assert!(matches!(
        root_object.entries()[0].value(),
        Value::Scalar(v) if v == "bar"
    ));
}

#[test]
fn should_allow_newline_between_equals_and_object_value() {
    let input = "foo =\n{ bar = baz }";
    let tokens = tokenize(input).expect("tokenize should succeed");
    let root = parse_root(&tokens).expect("parse should succeed");
    let Value::Object(root_object) = root else {
        panic!("root should be object");
    };
    assert!(matches!(root_object.entries()[0].value(), Value::Object(_)));
}

#[test]
fn should_ignore_extra_rbrace_at_root() {
    let input = "foo = bar\n}";
    let tokens = tokenize(input).expect("tokenize should succeed");
    let root = parse_root(&tokens).expect("parse should succeed");
    let Value::Object(root_object) = root else {
        panic!("root should be object");
    };
    assert_eq!(root_object.entries().len(), 1);
    assert_eq!(root_object.entries()[0].key(), "foo");
}

#[test]
fn should_tolerate_unclosed_array_at_eof() {
    let input = "items = { 1 2 3";
    let tokens = tokenize(input).expect("tokenize should succeed");
    let root = parse_root(&tokens).expect("parse should succeed");
    let Value::Object(root_object) = root else {
        panic!("root should be object");
    };
    assert!(matches!(
        root_object.entries()[0].value(),
        Value::Array(items) if items.len() == 3
    ));
}

#[test]
fn duplicate_key_count_should_be_isolated_per_scope() {
    let input = "country = { name = A name = B }\nname = C";
    let tokens = tokenize(input).expect("tokenize should succeed");
    let root = parse_root(&tokens).expect("parse should succeed");
    let Value::Object(root_object) = root else {
        panic!("root should be object");
    };

    assert_eq!(root_object.entries().len(), 2);
    assert_eq!(root_object.entries()[1].key(), "name");
    assert_eq!(root_object.entries()[1].metadata().duplicate_index, None);
}

#[test]
fn duplicate_suffix_is_upper_case_hexadecimal() {
    let mut input = String::new();
    for _ in 0..12 {
        input.push_str("k = v\n");
    }
    let tokens = tokenize(&input).expect("tokenize should succeed");
    let root = parse_root(&tokens).expect("parse should succeed");
    let Value::Object(root_object) = root else {
        panic!("root should be object");
    };
    let eleventh = &root_object.entries()[11];
    assert_eq!(eleventh.metadata().duplicate_index, Some(11));
    assert_eq!(eleventh.metadata().duplicate_suffix.as_deref(), Some("$$B"));
}

#[test]
fn parse_refuses_equals_where_a_key_is_expected() {
    let tokens = tokenize("= x").expect("tokenize should succeed");
    assert!(parse_root(&tokens).is_err());
}

#[test]
fn parse_refuses_key_without_value() {
    let tokens = tokenize("a =").expect("tokenize should succeed");
    assert!(parse_root(&tokens).is_err());
}

#[test]
fn implicit_operator_entry_keeps_sign() {
    let tokens = tokenize("size > 9").expect("tokenize should succeed");
    let root = parse_root(&tokens).expect("parse should succeed");
    let Value::Object(root_object) = root else {
        panic!("root should be object");
    };
    assert_eq!(root_object.entries()[0].key(), "size");
    assert!(matches!(root_object.entries()[0].value(), Value::Scalar(v) if v == "> 9"));
}

#[test]
fn object_block_that_fails_falls_back_to_list() {
    let tokens = tokenize("x = { a = { b = c } d }").expect("tokenize should succeed");
    let root = parse_root(&tokens).expect("parse should succeed");
    let Value::Object(root_object) = root else {
        panic!("root should be object");
    };
    let Value::Array(items) = root_object.entries()[0].value() else {
        panic!("expected list");
    };
    assert_eq!(items.len(), 4);
    assert!(matches!(&items[1], Value::Scalar(s) if s == "="));
    assert!(matches!(&items[2], Value::AnonymousObject(_)));
}

#[test]
fn missing_equals_names_the_token_found() {
    match hoi4_parser::parse("a b") {
        Err(hoi4_parser::Hoi4ParserError::Parse { message }) => {
            assert_eq!(message, "期望 '='，但遇到: Ident(\"b\")")
        }
        other => panic!("expected a parse error, got {other:?}"),
    }
}

fn parse_message(input: &str) -> String {
    match hoi4_parser::parse(input) {
        Err(hoi4_parser::Hoi4ParserError::Parse { message }) => message,
        other => panic!("expected a parse error, got {other:?}"),
    }
}

#[test]
fn stray_equals_names_the_token() {
    assert_eq!(parse_message("= x"), "不期望的 token: Equals");
}

#[test]
fn key_at_end_of_input_asks_for_equals() {
    assert_eq!(parse_message("a"), "期望 '='，但输入已结束");
}

#[test]
fn key_without_value_reports_missing_scalar() {
    assert_eq!(parse_message("a ="), "值解析失败，缺少标量内容");
}

#[test]
fn unclosed_brace_inside_scalar_is_reported() {
    assert_eq!(parse_message("a = b { c"), "标量中的花括号块未闭合，缺少 '}'");
}

#[test]
fn string_literal_token_is_named_with_its_quotes() {
    assert_eq!(parse_message("a \"b\""), "期望 '='，但遇到: StringLiteral(\"\\\"b\\\"\")");
}

#[test]
fn brace_where_equals_expected_is_named() {
    assert_eq!(parse_message("a {"), "期望 '='，但遇到: LBrace");
}

#[test]
fn parse_root_reports_the_same_message_as_parse() {
    let tokens = tokenize("= x").expect("tokenize should succeed");
    match parse_root(&tokens) {
        Err(hoi4_parser::Hoi4ParserError::Parse { message }) => {
            assert_eq!(message, "不期望的 token: Equals")
        }
        other => panic!("expected a parse error, got {other:?}"),
    }
}

use hoi4_parser::loc::{parse_inline, parse_loc, InlineNode};

fn t(s: &str) -> Vec<InlineNode> {
    parse_inline(s)
}

#[test]
fn plain_text() {
    assert_eq!(t("hello 世界"), vec![InlineNode::Text { value: "hello 世界".into() }]);
}

#[test]
fn color_push_pop() {
    let r = t("§Y步兵§!专家");
    assert_eq!(
        r,
        vec![
            InlineNode::ColorPush { code: 'Y' },
            InlineNode::Text { value: "步兵".into() },
            InlineNode::ColorPop,
            InlineNode::Text { value: "专家".into() },
        ]
    );
}

#[test]
fn dollar_ref() {
    assert_eq!(
        t("$PRC_zhang_guotao$"),
        vec![InlineNode::Ref { key: "PRC_zhang_guotao".into() }]
    );
}

#[test]
fn bracket_scope() {
    let r = t("将[FROM.GetName]整合");
    assert_eq!(
        r,
        vec![
            InlineNode::Text { value: "将".into() },
            InlineNode::Scope { expr: "FROM.GetName".into() },
            InlineNode::Text { value: "整合".into() },
        ]
    );
}

#[test]
fn icon_paired_and_self_terminated() {
    let r = t("£mil_factory£5");
    assert_eq!(
        r,
        vec![
            InlineNode::Icon { token: "mil_factory".into() },
            InlineNode::Text { value: "5".into() }
        ]
    );
    let r2 = t("£BoP_left_texticon §Y5§!");
    assert_eq!(
        r2,
        vec![
            InlineNode::Icon { token: "BoP_left_texticon".into() },
            InlineNode::Text { value: " ".into() },
            InlineNode::ColorPush { code: 'Y' },
            InlineNode::Text { value: "5".into() },
            InlineNode::ColorPop,
        ]
    );
}

#[test]
fn escapes() {
    let r = t("a\\nb\\tc\\\"d");
    assert_eq!(
        r,
        vec![
            InlineNode::Text { value: "a".into() },
            InlineNode::LineBreak,
            InlineNode::Text { value: "b".into() },
            InlineNode::Tab,
            InlineNode::Text { value: "c\"d".into() },
        ]
    );
}

#[test]
fn unclosed_dollar_falls_back_to_text() {
    assert_eq!(
        t("price is $10 today"),
        vec![InlineNode::Text { value: "price is $10 today".into() }]
    );
}

#[test]
fn unclosed_bracket_falls_back() {
    assert_eq!(t("oh [no oh"), vec![InlineNode::Text { value: "oh [no oh".into() }]);
}

#[test]
fn nested_dollar_inside_bracket_kept_opaque() {
    let r = t("[?JAP_desired_military_factories]");
    assert_eq!(
        r,
        vec![InlineNode::Scope { expr: "?JAP_desired_military_factories".into() }]
    );
}

#[test]
fn mixed_real_world() {
    let r = t("解锁£BoP_left_texticon §Y$PRC_communist_power_struggle$§!决议");
    assert_eq!(
        r,
        vec![
            InlineNode::Text { value: "解锁".into() },
            InlineNode::Icon { token: "BoP_left_texticon".into() },
            InlineNode::Text { value: " ".into() },
            InlineNode::ColorPush { code: 'Y' },
            InlineNode::Ref { key: "PRC_communist_power_struggle".into() },
            InlineNode::ColorPop,
            InlineNode::Text { value: "决议".into() },
        ]
    );
}

#[test]
fn parse_minimal_file() {
    let src = "\u{FEFF}l_simp_chinese:\n JAP_keisuke_okada: \"冈田启介\"\n";
    let f = parse_loc(src).unwrap();
    assert_eq!(f.lang, "l_simp_chinese");
    assert_eq!(f.entries.len(), 1);
    assert_eq!(f.entries[0].key, "JAP_keisuke_okada");
    assert_eq!(f.entries[0].raw, "冈田启介");
    assert!(f.warnings.is_empty());
}

#[test]
fn version_number_parsed() {
    let src = "l_english:\n FOO:3 \"bar\"\n";
    let f = parse_loc(src).unwrap();
    assert_eq!(f.entries[0].version, Some(3));
}

#[test]
fn missing_header_errors() {
    let src = "FOO: \"bar\"\n";
    assert!(parse_loc(src).is_err());
}

#[test]
fn comments_and_blanks_skipped() {
    let src = "l_english:\n\n  # hello\n FOO: \"bar\"\n";
    let f = parse_loc(src).unwrap();
    assert_eq!(f.entries.len(), 1);
}

#[test]
fn unrecognized_line_becomes_warning() {
    let src = "l_english:\nthis is junk no colon no quote\nFOO: \"bar\"\n";
    let f = parse_loc(src).unwrap();
    assert_eq!(f.entries.len(), 1);
    assert_eq!(f.warnings.len(), 1);
    assert_eq!(f.warnings[0].kind, "unrecognized_line");
}

#[test]
fn unclosed_quote_is_greedy_to_eol() {
    let src = "l_english:\n FOO: \"unterminated\nBAR: \"ok\"\n";
    let f = parse_loc(src).unwrap();
    assert_eq!(f.entries[0].key, "FOO");
    assert_eq!(f.entries[0].raw, "unterminated");
    assert_eq!(f.entries[1].key, "BAR");
}

#[test]
fn inline_nodes_attached() {
    let src = "l_simp_chinese:\n FOO: \"§Y步兵§!\"\n";
    let f = parse_loc(src).unwrap();
    assert_eq!(f.entries[0].nodes.len(), 3);
}

#[test]
fn missing_header_message_names_the_line() {
    let src = "\n# note\nFOO: \"bar\"\n";
    assert_eq!(parse_loc(src).unwrap_err(), "第 3 行：缺少 l_<lang>: 文件头");
}

#[test]
fn file_without_header_is_refused() {
    assert_eq!(parse_loc("\n  \n# only a comment\n").unwrap_err(), "文件为空或缺少 l_<lang>: 文件头");
    assert_eq!(parse_loc("").unwrap_err(), "文件为空或缺少 l_<lang>: 文件头");
}

#[test]
fn warning_keeps_line_number_and_raw_line() {
    let src = "l_english:\r\n junk line\r\n";
    let f = parse_loc(src).unwrap();
    assert_eq!(f.lang, "l_english");
    assert_eq!(f.warnings.len(), 1);
    assert_eq!(f.warnings[0].line, 2);
    assert_eq!(f.warnings[0].raw_line, " junk line");
}

#[test]
fn version_too_large_is_dropped_and_escapes_kept_raw() {
    let src = "l_english:\n A.b-c:99999999999 \"x \\\" y\" # c\n";
    let f = parse_loc(src).unwrap();
    assert_eq!(f.entries[0].key, "A.b-c");
    assert_eq!(f.entries[0].version, None);
    assert_eq!(f.entries[0].raw, "x \\\" y");
    assert_eq!(
        f.entries[0].nodes,
        vec![InlineNode::Text { value: "x \" y".into() }]
    );
}

#[test]
fn key_without_colon_is_a_warning() {
    let f = parse_loc("l_english:\nFOO \"bar\"\n").unwrap();
    assert_eq!(f.entries.len(), 0);
    assert_eq!(f.warnings.len(), 1);
}

#[test]
fn header_with_bad_character_is_refused() {
    assert!(parse_loc("l_eng-lish:\n").is_err());
}

#[test]
fn trailing_markers_stay_text() {
    assert_eq!(t("a§"), vec![InlineNode::Text { value: "a§".into() }]);
    assert_eq!(t("£ x"), vec![InlineNode::Text { value: "£ x".into() }]);
    assert_eq!(t("x\\"), vec![InlineNode::Text { value: "x\\".into() }]);
    assert_eq!(t("\\q"), vec![InlineNode::Text { value: "\\q".into() }]);
    assert_eq!(t("[a\nb]"), vec![InlineNode::Text { value: "[a\nb]".into() }]);
}

#[test]
fn adjacent_markup_nodes() {
    assert_eq!(
        t("£a£§!\\t"),
        vec![
            InlineNode::Icon { token: "a".into() },
            InlineNode::ColorPop,
            InlineNode::Tab,
        ]
    );
    assert_eq!(t(""), Vec::<InlineNode>::new());
}

#[test]
fn header_after_blank_and_comment_lines_gives_the_language() {
    let f = parse_loc("\u{feff}\n   # note\n  l_german:\n key:0 \"v\"\n").expect("should read");
    assert_eq!(f.lang, "l_german");
    assert_eq!(f.entries.len(), 1);
}

#[test]
fn first_significant_line_must_be_the_header() {
    assert_eq!(
        parse_loc("\n# c\nkey:0 \"v\"\nl_english:\n").unwrap_err(),
        "第 3 行：缺少 l_<lang>: 文件头"
    );
}

use hoi4_parser::tools::{
    default_exts, extension_matches, first_diff_line, is_plain_list_text, json_key,
    normalize_line_endings, parse_ext_arg, parse_mode_arg, relative_key, tally_outcomes, FileOutcome,
    Mode,
};
use hoi4_parser::{Entry, EntryMetadata, Value};

fn args(xs: &[&str]) -> Vec<String> {
    xs.iter().map(|s| s.to_string()).collect()
}

#[test]
fn plain_list_text_is_recognised() {
    assert!(is_plain_list_text("GER\n# comment\n  ITA\n"));
    assert!(!is_plain_list_text("a = b\n"));
    assert!(!is_plain_list_text("x\n{\n"));
    assert!(!is_plain_list_text("\n  \n# only comments\n"));
}

#[test]
fn extensions_match_ignoring_ascii_case() {
    let exts = vec!["txt".to_string(), "gfx".to_string()];
    assert!(extension_matches("TXT", &exts));
    assert!(extension_matches("Gfx", &exts));
    assert!(!extension_matches("yml", &exts));
    assert!(!extension_matches("tx", &exts));
}

#[test]
fn json_key_appends_suffix_or_index() {
    let plain = Entry::new("name", Value::Scalar("a".to_string()));
    assert_eq!(json_key(&plain), "name");
    let with_suffix = Entry::with_metadata(
        "name",
        Value::Scalar("b".to_string()),
        EntryMetadata { duplicate_index: Some(1), duplicate_suffix: Some("$$1".to_string()), nested_quoted: false },
    );
    assert_eq!(json_key(&with_suffix), "name_$$1");
    let with_index = Entry::with_metadata(
        "name",
        Value::Scalar("c".to_string()),
        EntryMetadata { duplicate_index: Some(12), duplicate_suffix: None, nested_quoted: false },
    );
    assert_eq!(json_key(&with_index), "name_12");
}

#[test]
fn line_endings_are_normalised() {
    assert_eq!(normalize_line_endings("a\r\nb\r\n\r"), "a\nb\n\r");
}

#[test]
fn relative_keys_use_forward_slashes() {
    assert_eq!(relative_key("common\\ideas\\a.txt", true), "common/ideas/a.txt");
    assert_eq!(relative_key("ideas\\a.txt", false), "common/ideas/a.txt");
}

#[test]
fn first_difference_is_reported() {
    assert_eq!(first_diff_line("a\nb\n", "a\nc\n"), "第 2 行不同 | 左: \"b\" | 右: \"c\"");
    assert_eq!(first_diff_line("a\n", "a\nb\n"), "行数不同 | 左: 1 行 | 右: 2 行");
    assert_eq!(first_diff_line("a\n", "a"), "存在差异(未定位到首个不同行)");
}

#[test]
fn mode_argument_is_read() {
    assert_eq!(parse_mode_arg(&args(&["--mode", "loc"])), Ok(Some(Mode::Loc)));
    assert_eq!(parse_mode_arg(&args(&["x", "--mode", "script"])), Ok(Some(Mode::Script)));
    assert_eq!(parse_mode_arg(&args(&["--ext", "yml"])), Ok(None));
    assert_eq!(parse_mode_arg(&args(&["--mode"])), Err("--mode 需要参数".to_string()));
    assert_eq!(
        parse_mode_arg(&args(&["--mode", "json"])),
        Err("未知 --mode json（支持 script | loc）".to_string())
    );
}

#[test]
fn extension_argument_is_read() {
    assert_eq!(
        parse_ext_arg(&args(&["--ext", " .YML, txt,,.."])),
        Some(vec!["yml".to_string(), "txt".to_string()])
    );
    assert_eq!(parse_ext_arg(&args(&["--ext"])), None);
    assert_eq!(parse_ext_arg(&args(&["--mode", "loc"])), None);
    assert_eq!(default_exts(Mode::Script), vec!["txt".to_string(), "gfx".to_string()]);
    assert_eq!(default_exts(Mode::Loc), vec!["yml".to_string()]);
}

#[test]
fn tally_counts_same_and_keeps_the_rest_in_order() {
    let outcomes = vec![
        FileOutcome::OnlyLeft("a.txt".to_string()),
        FileOutcome::Same,
        FileOutcome::Diff { relative: "b.txt".to_string(), detail: "line 3".to_string() },
        FileOutcome::OnlyRight("c.txt".to_string()),
        FileOutcome::Same,
        FileOutcome::OnlyLeft("d.txt".to_string()),
    ];
    let tally = tally_outcomes(&outcomes);
    assert_eq!(tally.same, 2);
    assert_eq!(tally.only_left, vec!["a.txt".to_string(), "d.txt".to_string()]);
    assert_eq!(tally.only_right, vec!["c.txt".to_string()]);
    assert_eq!(tally.diff, vec![("b.txt".to_string(), "line 3".to_string())]);
}

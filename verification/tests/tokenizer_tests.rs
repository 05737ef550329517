use hoi4_parser::tokenizer::{tokenize, Token};

fn ident(s: &str) -> Token {
    Token::Ident(s.to_string())
}

fn string_literal(s: &str) -> Token {
    Token::StringLiteral(s.to_string())
}

#[test]
fn should_tokenize_basic_assignment() {
    let tokens = tokenize("tag = CHI").expect("tokenize should succeed");
    assert_eq!(tokens, vec![ident("tag"), Token::Equals, ident("CHI")]);
}

#[test]
fn should_ignore_comments_but_keep_newline() {
    let tokens = tokenize("tag = CHI # comment\nname = \"A\"").expect("tokenize should succeed");
    assert_eq!(
        tokens,
        vec![
            ident("tag"),
            Token::Equals,
            ident("CHI"),
            Token::Newline,
            ident("name"),
            Token::Equals,
            string_literal("\"A\"")
        ]
    );
}

#[test]
fn should_keep_hash_inside_string() {
    let tokens = tokenize("name = \"A#B\" # comment").expect("tokenize should succeed");
    assert_eq!(
        tokens,
        vec![ident("name"), Token::Equals, string_literal("\"A#B\"")]
    );
}

#[test]
fn should_fail_for_unclosed_string() {
    let err = tokenize("name = \"A").expect_err("tokenize should fail");
    assert!(err.to_string().contains("字符串未闭合"));
}

#[test]
fn should_ignore_utf8_bom() {
    let tokens = tokenize("\u{feff}tag = CHI").expect("tokenize should succeed");
    assert_eq!(tokens, vec![ident("tag"), Token::Equals, ident("CHI")]);
}

#[test]
fn should_split_identifier_followed_by_comparison_then_operand() {
    let tokens = tokenize("threat>0.24").expect("tokenize should succeed");
    assert_eq!(tokens, vec![ident("threat"), ident(">0.24")]);
}

#[test]
fn tokenizer_does_not_split_comparison_followed_by_equals() {
    let tokens = tokenize("a>=b").expect("tokenize should succeed");
    assert_eq!(tokens, vec![ident("a>"), Token::Equals, ident("b")]);
}

#[test]
fn tokenizer_honours_escaped_quotes_in_strings() {
    let tokens = tokenize("x = \"a \\\" b\" y").expect("tokenize should succeed");
    assert_eq!(
        tokens,
        vec![ident("x"), Token::Equals, string_literal("\"a \\\" b\""), ident("y")]
    );
}

#[test]
fn tokenizer_braces_and_carriage_returns() {
    let tokens = tokenize("a={b}\r\n").expect("tokenize should succeed");
    assert_eq!(
        tokens,
        vec![
            ident("a"),
            Token::Equals,
            Token::LBrace,
            ident("b"),
            Token::RBrace,
            Token::Newline
        ]
    );
}

#[test]
fn quote_inside_a_word_or_comment_opens_no_string() {
    assert!(tokenize("ab\"c = d").is_ok());
    assert!(tokenize("a = b # it's \"open\n").is_ok());
    assert!(tokenize("a = b # \"\n").is_ok());
}

#[test]
fn quote_that_starts_a_token_must_close() {
    assert!(tokenize("a = \"b").is_err());
    assert!(tokenize("a = \"b\\\"").is_err());
    assert!(tokenize("a = \"b\\\"\"").is_ok());
}

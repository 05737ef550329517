use vstd::prelude::*;

use crate::error::Hoi4ParserError;
use crate::text::{ascii_alnum, chars_of, is_ascii_alnum, string_of_range};

verus! {

/// A lexical unit of script text.  `Ident` and `StringLiteral` carry the exact source
/// characters (a string literal with its quotes).
#[derive(Debug, Clone, PartialEq, Eq)]
pub enum Token {
    Ident(String),
    StringLiteral(String),
    Equals,
    LBrace,
    RBrace,
    Newline,
}

/// The model of a token.
pub enum SToken {
    Ident(Seq<char>),
    Str(Seq<char>),
    Equals,
    LBrace,
    RBrace,
    Newline,
}

pub open spec fn view_token(t: Token) -> SToken {
    match t {
        Token::Ident(s) => SToken::Ident(s@),
        Token::StringLiteral(s) => SToken::Str(s@),
        Token::Equals => SToken::Equals,
        Token::LBrace => SToken::LBrace,
        Token::RBrace => SToken::RBrace,
        Token::Newline => SToken::Newline,
    }
}

pub open spec fn view_tokens(ts: Seq<Token>) -> Seq<SToken> {
    ts.map_values(|t: Token| view_token(t))
}

/// Characters that end a bare word.
pub open spec fn is_word_stop(c: char) -> bool {
    c == '\r' || c == '\n' || c == ' ' || c == '\t' || c == '#' || c == '=' || c == '{' || c
        == '}'
}

pub open spec fn is_word_char(c: char) -> bool {
    is_ascii_alnum(c) || c == '_'
}

/// A bare word starting at `start` is cut before a comparison sign at `i` that sits between
/// a word character and an operand (`threat>0.24`), so the sign begins the next word.
pub open spec fn splits_comparison(s: Seq<char>, start: int, i: int) -> bool {
    &&& (s[i] == '>' || s[i] == '<')
    &&& i > start
    &&& is_word_char(s[i - 1])
    &&& i + 1 < s.len()
    &&& s[i + 1] != '='
    &&& (is_word_char(s[i + 1]) || s[i + 1] == '.')
}

/// The end of the bare word that starts at `start`, scanning from `i`.
pub open spec fn word_end(s: Seq<char>, start: int, i: int) -> int
    decreases s.len() - i,
{
    if i < 0 || i >= s.len() || is_word_stop(s[i]) || splits_comparison(s, start, i) {
        i
    } else {
        word_end(s, start, i + 1)
    }
}

/// The index just past the quote that closes a string literal, scanning from `i`, where
/// `escaped` says whether the previous character was an unconsumed backslash.
pub open spec fn string_close(s: Seq<char>, i: int, escaped: bool) -> Option<int>
    decreases s.len() - i,
{
    if i < 0 || i >= s.len() {
        None
    } else if escaped {
        string_close(s, i + 1, false)
    } else if s[i] == '\\' {
        string_close(s, i + 1, true)
    } else if s[i] == '"' {
        Some(i + 1)
    } else {
        string_close(s, i + 1, false)
    }
}

/// The index of the line feed that ends a comment, or the end of the text.
pub open spec fn comment_end(s: Seq<char>, i: int) -> int
    decreases s.len() - i,
{
    if i < 0 || i >= s.len() || s[i] == '\n' {
        i
    } else {
        comment_end(s, i + 1)
    }
}

pub open spec fn prepend(t: SToken, r: Result<Seq<SToken>, ()>) -> Result<Seq<SToken>, ()> {
    match r {
        Ok(rest) => Ok(seq![t] + rest),
        Err(e) => Err(e),
    }
}

/// The tokens of `s[i..]`: BOM characters, spaces, tabs and carriage returns are skipped,
/// `#` starts a comment that runs to the line end, a line feed, `=`, `{` and `}` are tokens
/// of their own, a `"` starts a string literal that honours backslash escapes and must be
/// closed, and anything else starts a bare word.
pub open spec fn tokenize_from(s: Seq<char>, i: int) -> Result<Seq<SToken>, ()>
    decreases s.len() - i, 1int,
{
    if i < 0 || i >= s.len() {
        Ok(Seq::empty())
    } else {
        let c = s[i];
        if c == '\u{feff}' || c == '\r' || c == ' ' || c == '\t' {
            tokenize_from(s, i + 1)
        } else if c == '\n' {
            prepend(SToken::Newline, tokenize_from(s, i + 1))
        } else if c == '#' {
            tokenize_rest_after_comment(s, i)
        } else if c == '=' {
            prepend(SToken::Equals, tokenize_from(s, i + 1))
        } else if c == '{' {
            prepend(SToken::LBrace, tokenize_from(s, i + 1))
        } else if c == '}' {
            prepend(SToken::RBrace, tokenize_from(s, i + 1))
        } else if c == '"' {
            match string_close(s, i + 1, false) {
                None => Err(()),
                Some(j) => if i < j <= s.len() {
                    prepend(SToken::Str(s.subrange(i, j)), tokenize_from(s, j))
                } else {
                    Err(())
                },
            }
        } else {
            let j = word_end(s, i, i);
            if i < j <= s.len() {
                prepend(SToken::Ident(s.subrange(i, j)), tokenize_from(s, j))
            } else {
                tokenize_from(s, i + 1)
            }
        }
    }
}

pub open spec fn tokenize_rest_after_comment(s: Seq<char>, i: int) -> Result<Seq<SToken>, ()>
    decreases s.len() - i, 0int,
{
    let j = comment_end(s, i + 1);
    if 0 <= i < j <= s.len() {
        tokenize_from(s, j)
    } else {
        Ok(Seq::empty())
    }
}

pub open spec fn spec_tokenize(s: Seq<char>) -> Result<Seq<SToken>, ()> {
    tokenize_from(s, 0)
}

proof fn lemma_word_end_bounds(s: Seq<char>, start: int, i: int)
    requires
        0 <= i <= s.len(),
    ensures
        i <= word_end(s, start, i) <= s.len(),
    decreases s.len() - i,
{
    if !(i >= s.len() || is_word_stop(s[i]) || splits_comparison(s, start, i)) {
        lemma_word_end_bounds(s, start, i + 1);
    }
}

proof fn lemma_comment_end_bounds(s: Seq<char>, i: int)
    requires
        0 <= i <= s.len(),
    ensures
        i <= comment_end(s, i) <= s.len(),
    decreases s.len() - i,
{
    if !(i >= s.len() || s[i] == '\n') {
        lemma_comment_end_bounds(s, i + 1);
    }
}

proof fn lemma_string_close_bounds(s: Seq<char>, i: int, escaped: bool)
    requires
        0 <= i,
    ensures
        string_close(s, i, escaped) matches Some(j) ==> i < j <= s.len(),
    decreases s.len() - i,
{
    if i < s.len() {
        lemma_string_close_bounds(s, i + 1, false);
        lemma_string_close_bounds(s, i + 1, true);
    }
}

/// A token that carries text carries a non-empty piece of the input.
pub open spec fn token_is_slice(t: SToken, s: Seq<char>) -> bool {
    match t {
        SToken::Ident(w) => w.len() > 0 && exists|i: int, j: int|
            0 <= i < j <= s.len() && w == s.subrange(i, j),
        SToken::Str(w) => w.len() > 0 && exists|i: int, j: int|
            0 <= i < j <= s.len() && w == s.subrange(i, j),
        _ => true,
    }
}

proof fn lemma_tokens_from_are_slices(s: Seq<char>, i: int)
    requires
        0 <= i,
    ensures
        tokenize_from(s, i) matches Ok(ts) ==> forall|k: int|
            0 <= k < ts.len() ==> token_is_slice(#[trigger] ts[k], s),
    decreases s.len() - i, 1int,
{
    if i < s.len() {
        let c = s[i];
        if c == '\u{feff}' || c == '\r' || c == ' ' || c == '\t' || c == '\n' || c == '='
            || c == '{' || c == '}' {
            lemma_tokens_from_are_slices(s, i + 1);
            if let Ok(rest) = tokenize_from(s, i + 1) {
                if c == '\n' || c == '=' || c == '{' || c == '}' {
                    let t = tokenize_from(s, i)->Ok_0;
                    assert forall|k: int| 0 <= k < t.len() implies token_is_slice(
                        #[trigger] t[k],
                        s,
                    ) by {
                        if k > 0 {
                            assert(t[k] == rest[k - 1]);
                        }
                    }
                }
            }
        } else if c == '#' {
            lemma_comment_end_bounds(s, i + 1);
            let j = comment_end(s, i + 1);
            assert(tokenize_from(s, i) == tokenize_rest_after_comment(s, i));
            if 0 <= i < j <= s.len() {
                lemma_tokens_from_are_slices(s, j);
            }
        } else if c == '"' {
            lemma_string_close_bounds(s, i + 1, false);
            if let Some(j) = string_close(s, i + 1, false) {
                if i < j <= s.len() {
                    lemma_tokens_from_are_slices(s, j);
                    if let Ok(rest) = tokenize_from(s, j) {
                        let t = tokenize_from(s, i)->Ok_0;
                        assert forall|k: int| 0 <= k < t.len() implies token_is_slice(
                            #[trigger] t[k],
                            s,
                        ) by {
                            if k > 0 {
                                assert(t[k] == rest[k - 1]);
                            } else {
                                assert(t[0] == SToken::Str(s.subrange(i, j)));
                                assert(s.subrange(i, j).len() > 0);
                                assert(0 <= i < j <= s.len() && s.subrange(i, j) == s.subrange(i, j));
                            }
                        }
                    }
                }
            }
        } else {
            lemma_word_end_bounds(s, i, i);
            let j = word_end(s, i, i);
            if i < j <= s.len() {
                lemma_tokens_from_are_slices(s, j);
                if let Ok(rest) = tokenize_from(s, j) {
                    let t = tokenize_from(s, i)->Ok_0;
                    assert forall|k: int| 0 <= k < t.len() implies token_is_slice(
                        #[trigger] t[k],
                        s,
                    ) by {
                        if k > 0 {
                            assert(t[k] == rest[k - 1]);
                        } else {
                            assert(t[0] == SToken::Ident(s.subrange(i, j)));
                            assert(s.subrange(i, j).len() > 0);
                            assert(0 <= i < j <= s.len() && s.subrange(i, j) == s.subrange(i, j));
                        }
                    }
                }
            } else {
                lemma_tokens_from_are_slices(s, i + 1);
            }
        }
    }
}

/// Each word and string literal that tokenizing yields is a non-empty piece of the input.
pub proof fn lemma_tokens_are_slices(s: Seq<char>)
    ensures
        spec_tokenize(s) matches Ok(ts) ==> forall|k: int|
            0 <= k < ts.len() ==> token_is_slice(#[trigger] ts[k], s),
{
    lemma_tokens_from_are_slices(s, 0);
}

/// Where the scan of `s` goes on after what starts at `i`: past a skipped character or a
/// one-character token, past a comment up to its line feed, past a closed string literal, or
/// past a bare word; a string literal that never closes ends the scan (`None`).
pub open spec fn scan_next(s: Seq<char>, i: int) -> Option<int> {
    let c = s[i];
    if c == '#' {
        Some(comment_end(s, i + 1))
    } else if c == '"' {
        string_close(s, i + 1, false)
    } else if c == '\u{feff}' || c == '\r' || c == ' ' || c == '\t' || c == '\n' || c == '='
        || c == '{' || c == '}' {
        Some(i + 1)
    } else if i < word_end(s, i, i) {
        Some(word_end(s, i, i))
    } else {
        Some(i + 1)
    }
}

/// Whether the scan of `s` from `i` meets a string literal that is never closed.
pub open spec fn meets_unclosed_string(s: Seq<char>, i: int) -> bool
    decreases s.len() - i,
{
    if i < 0 || i >= s.len() {
        false
    } else {
        match scan_next(s, i) {
            None => true,
            Some(j) => if i < j <= s.len() {
                meets_unclosed_string(s, j)
            } else {
                false
            },
        }
    }
}

proof fn lemma_tokenize_from_fails(s: Seq<char>, i: int)
    requires
        0 <= i,
    ensures
        tokenize_from(s, i) is Err <==> meets_unclosed_string(s, i),
    decreases s.len() - i,
{
    if i < s.len() {
        let c = s[i];
        if c == '\u{feff}' || c == '\r' || c == ' ' || c == '\t' || c == '\n' || c == '='
            || c == '{' || c == '}' {
            lemma_tokenize_from_fails(s, i + 1);
        } else if c == '#' {
            lemma_comment_end_bounds(s, i + 1);
            assert(tokenize_from(s, i) == tokenize_rest_after_comment(s, i));
            lemma_tokenize_from_fails(s, comment_end(s, i + 1));
        } else if c == '"' {
            lemma_string_close_bounds(s, i + 1, false);
            if let Some(j) = string_close(s, i + 1, false) {
                lemma_tokenize_from_fails(s, j);
            }
        } else {
            lemma_word_end_bounds(s, i, i);
            let j = word_end(s, i, i);
            if i < j {
                lemma_tokenize_from_fails(s, j);
            } else {
                lemma_tokenize_from_fails(s, i + 1);
            }
        }
    }
}

/// Tokenizing fails exactly when its scan meets a `"` whose string literal is never closed
/// (a `"` inside a bare word, a comment or an earlier literal starts none).
pub proof fn lemma_tokenize_fails_on_unclosed_string(s: Seq<char>)
    ensures
        spec_tokenize(s) is Err <==> meets_unclosed_string(s, 0),
{
    lemma_tokenize_from_fails(s, 0);
}

/// A bare word that runs over `[i, e)` ends at `e`.
pub(crate) proof fn lemma_word_end_run(s: Seq<char>, start: int, i: int, e: int)
    requires
        0 <= i <= e <= s.len(),
        forall|k: int| i <= k < e ==> !is_word_stop(#[trigger] s[k]) && !splits_comparison(s, start, k),
        e == s.len() || is_word_stop(s[e]) || splits_comparison(s, start, e),
    ensures
        word_end(s, start, i) == e,
    decreases e - i,
{
    if i < e {
        lemma_word_end_run(s, start, i + 1, e);
    }
}

/// A comparison sign between two words splits them, whichever the sign: with `x` a run of
/// word characters and `y` a run of word characters and dots, `x<y` (as `threat<0.24`) and
/// `x>y` are the word `x` followed by the word that starts with the sign.
pub proof fn lemma_comparison_sign_splits_word(x: Seq<char>, sign: char, y: Seq<char>)
    requires
        x.len() > 0,
        forall|i: int| 0 <= i < x.len() ==> is_word_char(#[trigger] x[i]),
        sign == '<' || sign == '>',
        y.len() > 0,
        forall|i: int| 0 <= i < y.len() ==> is_word_char(#[trigger] y[i]) || y[i] == '.',
    ensures
        spec_tokenize(x + seq![sign] + y) == Ok::<Seq<SToken>, ()>(
            seq![SToken::Ident(x), SToken::Ident(seq![sign] + y)],
        ),
{
    let s = x + seq![sign] + y;
    let n = x.len() as int;
    assert forall|k: int| 0 <= k < n implies s[k] == x[k] by {}
    assert forall|k: int| n < k < s.len() implies s[k] == y[k - n - 1] by {}
    assert(s[n] == sign);
    assert forall|k: int| 0 <= k < n implies !is_word_stop(#[trigger] s[k]) && !splits_comparison(s, 0, k) by {
        assert(is_word_char(x[k]));
    }
    assert(is_word_char(s[n - 1]));
    assert(is_word_char(y[0]) || y[0] == '.');
    assert(splits_comparison(s, 0, n));
    lemma_word_end_run(s, 0, 0, n);
    assert forall|k: int| n <= k < s.len() implies !is_word_stop(#[trigger] s[k]) && !splits_comparison(s, n, k) by {
        if k > n {
            assert(is_word_char(y[k - n - 1]) || y[k - n - 1] == '.');
        }
    }
    lemma_word_end_run(s, n, n, s.len() as int);
    assert(is_word_char(s[0]));
    let c0 = s[0];
    assert(!(c0 == '\u{feff}' || c0 == '\r' || c0 == ' ' || c0 == '\t' || c0 == '\n' || c0 == '#'
        || c0 == '=' || c0 == '{' || c0 == '}' || c0 == '"'));
    let tail = s.subrange(n, s.len() as int);
    assert(tokenize_from(s, s.len() as int) == Ok::<Seq<SToken>, ()>(Seq::empty()));
    assert(tokenize_from(s, n) == prepend(SToken::Ident(tail), tokenize_from(s, s.len() as int)));
    assert(seq![SToken::Ident(tail)] + Seq::<SToken>::empty() =~= seq![SToken::Ident(tail)]);
    assert(tokenize_from(s, n) == Ok::<Seq<SToken>, ()>(seq![SToken::Ident(tail)]));
    assert(tokenize_from(s, 0) == prepend(SToken::Ident(s.subrange(0, n)), tokenize_from(s, n)));
    assert(tail =~= seq![sign] + y);
    assert(s.subrange(0, n) =~= x);
    assert(seq![SToken::Ident(x)] + seq![SToken::Ident(tail)] =~= seq![
        SToken::Ident(x),
        SToken::Ident(seq![sign] + y),
    ]);
}

/// A sign followed by `=` does not split a word: `x<=y` (and `x>=y`) is the word `x<` (or
/// `x>`), `=`, and the word `y`.
pub proof fn lemma_sign_before_equals_stays_in_word(x: Seq<char>, sign: char, y: Seq<char>)
    requires
        x.len() > 0,
        forall|i: int| 0 <= i < x.len() ==> is_word_char(#[trigger] x[i]),
        sign == '<' || sign == '>',
        y.len() > 0,
        forall|i: int| 0 <= i < y.len() ==> is_word_char(#[trigger] y[i]) || y[i] == '.',
    ensures
        spec_tokenize(x + seq![sign, '='] + y) == Ok::<Seq<SToken>, ()>(
            seq![SToken::Ident(x.push(sign)), SToken::Equals, SToken::Ident(y)],
        ),
{
    let s = x + seq![sign, '='] + y;
    let n = x.len() as int;
    let m = s.len() as int;
    assert forall|k: int| 0 <= k < n implies s[k] == x[k] by {}
    assert forall|k: int| n + 2 <= k < m implies s[k] == y[k - n - 2] by {}
    assert(s[n] == sign && s[n + 1] == '=');
    assert forall|k: int| 0 <= k <= n implies !is_word_stop(#[trigger] s[k]) && !splits_comparison(s, 0, k) by {
        if k < n {
            assert(is_word_char(x[k]));
        }
    }
    assert(is_word_stop(s[n + 1]));
    lemma_word_end_run(s, 0, 0, n + 1);
    assert forall|k: int| n + 2 <= k < m implies !is_word_stop(#[trigger] s[k]) && !splits_comparison(s, n + 2, k) by {
        assert(is_word_char(y[k - n - 2]) || y[k - n - 2] == '.');
    }
    lemma_word_end_run(s, n + 2, n + 2, m);
    assert(is_word_char(s[0]));
    assert(is_word_char(y[0]) || y[0] == '.');
    let c0 = s[0];
    assert(!(c0 == '\u{feff}' || c0 == '\r' || c0 == ' ' || c0 == '\t' || c0 == '\n' || c0 == '#'
        || c0 == '=' || c0 == '{' || c0 == '}' || c0 == '"'));
    let tail = s.subrange(n + 2, m);
    assert(tokenize_from(s, m) == Ok::<Seq<SToken>, ()>(Seq::empty()));
    assert(tokenize_from(s, n + 2) == prepend(SToken::Ident(tail), tokenize_from(s, m)));
    assert(seq![SToken::Ident(tail)] + Seq::<SToken>::empty() =~= seq![SToken::Ident(tail)]);
    assert(tokenize_from(s, n + 1) == prepend(SToken::Equals, tokenize_from(s, n + 2)));
    assert(tokenize_from(s, 0) == prepend(SToken::Ident(s.subrange(0, n + 1)), tokenize_from(s, n + 1)));
    assert(tail =~= y);
    assert(s.subrange(0, n + 1) =~= x.push(sign));
    assert(seq![SToken::Ident(x.push(sign))] + (seq![SToken::Equals] + seq![SToken::Ident(y)]) =~= seq![
        SToken::Ident(x.push(sign)),
        SToken::Equals,
        SToken::Ident(y),
    ]);
}

/// Whether the bare word that starts at `start` ends before index `j`.
fn word_stops_at(chars: &Vec<char>, start: usize, j: usize) -> (r: bool)
    requires
        start <= j < chars@.len(),
    ensures
        r == (is_word_stop(chars@[j as int]) || splits_comparison(chars@, start as int, j as int)),
{
    let d = chars[j];
    if d == '\r' || d == '\n' || d == ' ' || d == '\t' || d == '#' || d == '=' || d == '{' || d
        == '}' {
        return true;
    }
    if (d == '>' || d == '<') && j > start {
        let p = chars[j - 1];
        if ascii_alnum(p) || p == '_' {
            if j < chars.len() - 1 {
                let q = chars[j + 1];
                if q != '=' && (ascii_alnum(q) || q == '_' || q == '.') {
                    return true;
                }
            }
        }
    }
    false
}

/// Splits script text into tokens.  Fails, with the message "字符串未闭合", exactly when a
/// string literal is not closed.
pub fn tokenize(input: &str) -> (r: Result<Vec<Token>, Hoi4ParserError>)
    ensures
        match r {
            Ok(ts) => spec_tokenize(input@) == Ok::<Seq<SToken>, ()>(view_tokens(ts@)),
            Err(e) => spec_tokenize(input@) is Err && (e matches Hoi4ParserError::Parse {
                message,
            } && message@ == "字符串未闭合"@),
        },
{
    let chars = chars_of(input);
    tokenize_chars(&chars)
}

/// Splits the characters of script text into tokens (see `tokenize`).
pub fn tokenize_chars(chars: &Vec<char>) -> (r: Result<Vec<Token>, Hoi4ParserError>)
    ensures
        match r {
            Ok(ts) => spec_tokenize(chars@) == Ok::<Seq<SToken>, ()>(view_tokens(ts@)),
            Err(e) => spec_tokenize(chars@) is Err && (e matches Hoi4ParserError::Parse {
                message,
            } && message@ == "字符串未闭合"@),
        },
{
    let ghost s = chars@;
    let n = chars.len();
    let mut tokens: Vec<Token> = Vec::new();
    let mut i: usize = 0;
    while i < n
        invariant
            n == s.len(),
            s == chars@,
            i <= n,
            spec_tokenize(s) == match tokenize_from(s, i as int) {
                Ok(rest) => Ok(view_tokens(tokens@) + rest),
                Err(e) => Err::<Seq<SToken>, ()>(e),
            },
        decreases n - i,
    {
        let c = chars[i];
        let ghost before = tokens@;
        proof {
            lemma_word_end_bounds(s, i as int, i as int);
            lemma_comment_end_bounds(s, i + 1);
            lemma_string_close_bounds(s, i + 1, false);
        }
        if c == '\u{feff}' || c == '\r' || c == ' ' || c == '\t' {
            i += 1;
        } else if c == '\n' || c == '=' || c == '{' || c == '}' {
            let t = if c == '\n' {
                Token::Newline
            } else if c == '=' {
                Token::Equals
            } else if c == '{' {
                Token::LBrace
            } else {
                Token::RBrace
            };
            tokens.push(t);
            proof {
                assert(view_tokens(tokens@) =~= view_tokens(before) + seq![view_token(t)]);
                match tokenize_from(s, i + 1) {
                    Ok(rest) => {
                        assert(view_tokens(tokens@) + rest =~= view_tokens(before) + (seq![
                            view_token(t),
                        ] + rest));
                    },
                    Err(_) => {},
                }
            }
            i += 1;
        } else if c == '#' {
            let mut j = i + 1;
            while j < n && chars[j] != '\n'
                invariant
                    i < j <= n,
                    n == s.len(),
                    s == chars@,
                    comment_end(s, i + 1) == comment_end(s, j as int),
                decreases n - j,
            {
                j += 1;
            }
            assert(tokenize_from(s, i as int) == tokenize_rest_after_comment(s, i as int));
            assert(tokenize_from(s, i as int) == tokenize_from(s, j as int));
            i = j;
        } else if c == '"' {
            let start = i;
            let mut j = i + 1;
            let mut escaped = false;
            let mut closed = false;
            while j < n && !closed
                invariant
                    start < j <= n,
                    n == s.len(),
                    s == chars@,
                    !closed ==> string_close(s, start + 1, false) == string_close(
                        s,
                        j as int,
                        escaped,
                    ),
                    closed ==> string_close(s, start + 1, false) == Some(j as int),
                decreases n - j,
            {
                let d = chars[j];
                j += 1;
                if escaped {
                    escaped = false;
                } else if d == '\\' {
                    escaped = true;
                } else if d == '"' {
                    closed = true;
                }
            }
            if !closed {
                return Err(Hoi4ParserError::parse_error("字符串未闭合"));
            }
            let text = string_of_range(chars.as_slice(), start, j);
            let t = Token::StringLiteral(text);
            tokens.push(t);
            proof {
                assert(view_tokens(tokens@) =~= view_tokens(before) + seq![view_token(t)]);
                match tokenize_from(s, j as int) {
                    Ok(rest) => {
                        assert(view_tokens(tokens@) + rest =~= view_tokens(before) + (seq![
                            view_token(t),
                        ] + rest));
                    },
                    Err(_) => {},
                }
            }
            i = j;
        } else {
            let start = i;
            let mut j = i;
            while j < n && !word_stops_at(chars, start, j)
                invariant
                    start <= j <= n,
                    n == s.len(),
                    s == chars@,
                    word_end(s, start as int, start as int) == word_end(s, start as int, j as int),
                decreases n - j,
            {
                j += 1;
            }
            assert(word_end(s, start as int, j as int) == j);
            if j > start {
                let text = string_of_range(chars.as_slice(), start, j);
                let t = Token::Ident(text);
                tokens.push(t);
                proof {
                    assert(view_tokens(tokens@) =~= view_tokens(before) + seq![view_token(t)]);
                    match tokenize_from(s, j as int) {
                        Ok(rest) => {
                            assert(view_tokens(tokens@) + rest =~= view_tokens(before) + (seq![
                                view_token(t),
                            ] + rest));
                        },
                        Err(_) => {},
                    }
                }
                i = j;
            } else {
                i += 1;
            }
        }
    }
    proof {
        assert(view_tokens(tokens@) + Seq::<SToken>::empty() =~= view_tokens(tokens@));
    }
    Ok(tokens)
}

} // verus!

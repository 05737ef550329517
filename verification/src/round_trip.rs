//! Writing a document and reading it back: for documents of plain names, numbers and quoted
//! texts, colors, nested blocks, and lists of names and anonymous blocks, `parse` gives back
//! exactly the tree that `generate` wrote.

use vstd::prelude::*;

use crate::ast::{SEntry, SMeta, SValue};
use crate::compat::{
    escape_rules, has_restore_markers, restore_rules, spec_escape, spec_is_macro_token, spec_restore,
    spec_unquote_macro_line,
};
use crate::gen_spec::{
    bare_block,
    array_block, array_chunks, attached_at, equals_at, is_comparison_text, is_composite, or_raw,
    render_scalar, scalar_of, single_expression_array, then_equals_at, value_text,
    canonicalize_quoted_script, color_body, color_keywords, color_parts, color_with, prefixed_lines, split_ws, entries_texts, entry_text,
    is_multiline_value, keyed_block, leading_operator_len, lf, multiline_value,
    normalize_quoted_like_java, render_entry_scalar, tabs, trim_operator_numeric, document_text,
    value_depth,
    trim_plain_decimal, has_whitespace, trim_template_counter, with_prefix, template_counter_key, all_ascii_digits,
};
use crate::compat::{parse_marker_rules, spec_normalize};
use crate::nested::spec_decode_nested;
use crate::parse_spec::{
    array_item_value, array_loop, array_value, collapse_color, has_unclosed_quote, is_color_keyword, join_space,
    list_items, merge_split_quoted, multi_fold, multi_line_items, multi_step, quote_scan, quote_step,
    start_quote_state, MultiState, QuoteState, SEvent, all_plain_scalars, scalar_texts,
    append_part, braced_value, classify_braced, duplicate_meta, entries_loop, expect_equals_or_operator,
    expect_key, is_op_text, key_count, nested_script, parse_entry, parse_value, plain_entry_meta,
    parse_document, scalar_loop, scalar_sequence, should_attempt_nested, skip_newlines, word_text,
    with_duplicate_meta, BraceKind, key_value_boundary, implicit_operator_boundary,
};
use crate::{is_blank, spec_generate, spec_parse};
use crate::text::{
    join, lemma_match_rule_ok, lemma_rewrite_identity, lemma_rewrite_keep, lemma_rewrite_unmatched,
    lemma_starts_with1, rewrite,
    lemma_starts_with2, occurs_at, contains_seq, trim_start_char, unicode_whitespace, trim,
    trim_end, trim_start, lemma_trim_start_suffix, ends_with, lemma_ends_with1, find_from,
    lemma_find_from, lines, strip_cr,
};
use crate::tokenizer::{
    comment_end, tokenize_rest_after_comment, is_word_char, is_word_stop, spec_tokenize, splits_comparison, string_close,
    tokenize_from, word_end, SToken, lemma_word_end_run, prepend,
};

verus! {

/// A character of the texts that plain documents are written as: a character of a name, a
/// space, a tab, a line feed, `=`, `{`, `}` or `"`.
pub open spec fn is_simple_char(c: char) -> bool {
    is_name_char(c) || c == ' ' || c == '\t' || c == '\n' || c == '=' || c == '{' || c == '}'
        || c == '"'
}

/// `--`, which marks a `:` in written scalars.
pub open spec fn dashes() -> Seq<char> {
    seq!['-', '-']
}

/// No `_` follows a `"` on the same line.
pub open spec fn quotes_before_underscores(s: Seq<char>) -> bool {
    forall|i: int, j: int|
        #![trigger s[i], s[j]]
        0 <= i < j < s.len() && s[i] == '"' && s[j] == '_' ==> exists|m: int|
            i < m < j && s[m] == '\n'
}

/// Text of simple characters with no `--`, where no `_` follows a `"` on the same line.
pub open spec fn is_simple_text(s: Seq<char>) -> bool {
    &&& forall|i: int| 0 <= i < s.len() ==> is_simple_char(#[trigger] s[i])
    &&& !contains_seq(s, dashes())
    &&& quotes_before_underscores(s)
}

/// Where `--` occurs, both characters are dashes.
proof fn lemma_dashes_at(s: Seq<char>, i: int)
    requires
        occurs_at(s, i, dashes()),
    ensures
        s[i] == '-',
        s[i + 1] == '-',
{
    assert(s.subrange(i, i + 2)[0] == s[i]);
    assert(s.subrange(i, i + 2)[1] == s[i + 1]);
}

/// Two dashes side by side are an occurrence of `--`.
proof fn lemma_dashes_found(s: Seq<char>, i: int)
    requires
        0 <= i,
        i + 1 < s.len(),
        s[i] == '-',
        s[i + 1] == '-',
    ensures
        contains_seq(s, dashes()),
{
    assert(s.subrange(i, i + 2) =~= dashes());
    assert(occurs_at(s, i, dashes()));
}

/// A text that ends in the middle of a line: non-empty, and not ending with a line feed.
pub open spec fn ends_in_line(s: Seq<char>) -> bool {
    s.len() > 0 && s.last() != '\n'
}

/// The tokens of a whole text.
pub open spec fn tok(s: Seq<char>) -> Result<Seq<SToken>, ()> {
    tokenize_from(s, 0)
}

/// Where a bare word ends does not depend on the text before the position it starts from.
proof fn lemma_word_end_shift(s: Seq<char>, k: int, start: int, i: int)
    requires
        0 <= k <= start <= i <= s.len(),
    ensures
        word_end(s, start, i) == k + word_end(s.skip(k), start - k, i - k),
    decreases s.len() - i,
{
    let t = s.skip(k);
    if i < s.len() {
        assert(t[i - k] == s[i]);
        if i > start {
            assert(t[i - k - 1] == s[i - 1]);
        }
        if i + 1 < s.len() {
            assert(t[i - k + 1] == s[i + 1]);
        }
        assert(splits_comparison(s, start, i) == splits_comparison(t, start - k, i - k));
        if !(is_word_stop(s[i]) || splits_comparison(s, start, i)) {
            lemma_word_end_shift(s, k, start, i + 1);
        }
    }
}

/// Where a string literal closes does not depend on the text before `i`.
proof fn lemma_string_close_shift(s: Seq<char>, k: int, i: int, escaped: bool)
    requires
        0 <= k <= i,
        k <= s.len(),
    ensures
        string_close(s, i, escaped) == match string_close(s.skip(k), i - k, escaped) {
            Some(j) => Some(j + k),
            None => None,
        },
    decreases s.len() - i,
{
    if i < s.len() {
        assert(s.skip(k)[i - k] == s[i]);
        lemma_string_close_shift(s, k, i + 1, false);
        lemma_string_close_shift(s, k, i + 1, true);
    }
}

/// Where a comment ends does not depend on the text before `i`.
proof fn lemma_comment_end_shift(s: Seq<char>, k: int, i: int)
    requires
        0 <= k <= i,
        k <= s.len(),
    ensures
        comment_end(s, i) == k + comment_end(s.skip(k), i - k),
    decreases s.len() - i,
{
    if i < s.len() {
        assert(s.skip(k)[i - k] == s[i]);
        lemma_comment_end_shift(s, k, i + 1);
    }
}

/// Tokenizing from `i` reads only what follows `k <= i`.
proof fn lemma_tokenize_shift(s: Seq<char>, k: int, i: int)
    requires
        0 <= k <= i,
        k <= s.len(),
    ensures
        tokenize_from(s, i) == tokenize_from(s.skip(k), i - k),
    decreases s.len() - i,
{
    let t = s.skip(k);
    if i < s.len() {
        let c = s[i];
        assert(t[i - k] == c);
        if c == '\u{feff}' || c == '\r' || c == ' ' || c == '\t' || c == '\n' || c == '='
            || c == '{' || c == '}' {
            lemma_tokenize_shift(s, k, i + 1);
        } else if c == '#' {
            lemma_comment_end_shift(s, k, i + 1);
            let j = comment_end(s, i + 1);
            assert(tokenize_from(s, i) == tokenize_rest_after_comment(s, i));
            assert(tokenize_from(t, i - k) == tokenize_rest_after_comment(t, i - k));
            if 0 <= i < j <= s.len() {
                lemma_tokenize_shift(s, k, j);
            }
        } else if c == '"' {
            lemma_string_close_shift(s, k, i + 1, false);
            match string_close(s, i + 1, false) {
                Some(j) => if i < j <= s.len() {
                    assert(s.subrange(i, j) =~= t.subrange(i - k, j - k));
                    lemma_tokenize_shift(s, k, j);
                },
                None => {},
            }
        } else {
            lemma_word_end_shift(s, k, i, i);
            let j = word_end(s, i, i);
            if i < j <= s.len() {
                assert(s.subrange(i, j) =~= t.subrange(i - k, j - k));
                lemma_tokenize_shift(s, k, j);
            } else {
                lemma_tokenize_shift(s, k, i + 1);
            }
        }
    }
}

/// No bare word of `a` runs on into `b`.
pub open spec fn words_apart(a: Seq<char>, b: Seq<char>) -> bool {
    a.len() == 0 || b.len() == 0 || is_word_stop(a.last()) || is_word_stop(b[0])
}

/// A bare word starting in `a` ends where it ends in `a` alone.
proof fn lemma_word_end_prefix(a: Seq<char>, b: Seq<char>, start: int, m: int)
    requires
        0 <= start <= m <= a.len(),
        start < a.len(),
        words_apart(a, b),
        m == a.len() ==> b.len() == 0 || is_word_stop(b[0]),
    ensures
        word_end(a + b, start, m) == word_end(a, start, m),
    decreases a.len() - m,
{
    let ab = a + b;
    if m < a.len() {
        assert(ab[m] == a[m]);
        if m > start {
            assert(ab[m - 1] == a[m - 1]);
        }
        if m + 1 < a.len() {
            assert(ab[m + 1] == a[m + 1]);
            assert(splits_comparison(ab, start, m) == splits_comparison(a, start, m));
        } else if !is_word_stop(a[m]) {
            assert(a.last() == a[m]);
            if b.len() > 0 {
                assert(ab[m + 1] == b[0]);
            }
            assert(!splits_comparison(ab, start, m));
        }
        if !(is_word_stop(a[m]) || splits_comparison(a, start, m)) {
            lemma_word_end_prefix(a, b, start, m + 1);
        }
    } else if b.len() > 0 {
        assert(ab[m] == b[0]);
    }
}

/// A bare word scanned from `i` ends between `i` and the end of the text.
proof fn lemma_word_end_bound(s: Seq<char>, start: int, i: int)
    requires
        0 <= i <= s.len(),
    ensures
        i <= word_end(s, start, i) <= s.len(),
    decreases s.len() - i,
{
    if i < s.len() && !(is_word_stop(s[i]) || splits_comparison(s, start, i)) {
        lemma_word_end_bound(s, start, i + 1);
    }
}

/// A string literal that closes in `a` closes at the same place in `a + b`.
proof fn lemma_string_close_prefix(a: Seq<char>, b: Seq<char>, i: int, escaped: bool)
    requires
        0 <= i,
        string_close(a, i, escaped) is Some,
    ensures
        string_close(a + b, i, escaped) == string_close(a, i, escaped),
    decreases a.len() - i,
{
    if i < a.len() {
        assert((a + b)[i] == a[i]);
        if escaped || a[i] != '"' {
            lemma_string_close_prefix(a, b, i + 1, a[i] == '\\' && !escaped);
        }
    }
}

/// Tokenizing `a + b` from a position in `a` reads the tokens of `a` from there and then those
/// of `b`, when `a` holds no comment and no word runs on from `a` into `b`.
proof fn lemma_tokenize_append(a: Seq<char>, b: Seq<char>, i: int)
    requires
        0 <= i <= a.len(),
        tokenize_from(a, i) is Ok,
        tok(b) is Ok,
        !a.contains('#'),
        words_apart(a, b),
    ensures
        tokenize_from(a + b, i) == Ok::<Seq<SToken>, ()>(tokenize_from(a, i)->Ok_0 + tok(b)->Ok_0),
    decreases a.len() - i,
{
    let ab = a + b;
    if i == a.len() {
        lemma_tokenize_shift(ab, i, i);
        assert(ab.skip(i) =~= b);
        assert(Seq::<SToken>::empty() + tok(b)->Ok_0 =~= tok(b)->Ok_0);
    } else {
        let c = a[i];
        assert(ab[i] == c);
        if c == '\u{feff}' || c == '\r' || c == ' ' || c == '\t' {
            lemma_tokenize_append(a, b, i + 1);
        } else if c == '\n' || c == '=' || c == '{' || c == '}' {
            lemma_tokenize_append(a, b, i + 1);
            let t = if c == '\n' {
                SToken::Newline
            } else if c == '=' {
                SToken::Equals
            } else if c == '{' {
                SToken::LBrace
            } else {
                SToken::RBrace
            };
            assert(seq![t] + tokenize_from(a, i + 1)->Ok_0 + tok(b)->Ok_0 =~= seq![t] + (
            tokenize_from(a, i + 1)->Ok_0 + tok(b)->Ok_0));
        } else if c == '#' {
            assert(a.contains('#'));
        } else if c == '"' {
            assert(string_close(a, i + 1, false) is Some);
            let j = string_close(a, i + 1, false)->0;
            assert(i < j <= a.len());
            lemma_string_close_prefix(a, b, i + 1, false);
            assert(ab.subrange(i, j) =~= a.subrange(i, j));
            lemma_tokenize_append(a, b, j);
            let w = SToken::Str(a.subrange(i, j));
            assert(seq![w] + tokenize_from(a, j)->Ok_0 + tok(b)->Ok_0 =~= seq![w] + (
            tokenize_from(a, j)->Ok_0 + tok(b)->Ok_0));
        } else {
            lemma_word_end_prefix(a, b, i, i);
            lemma_word_end_bound(a, i, i);
            let j = word_end(a, i, i);
            if i < j <= a.len() {
                assert(ab.subrange(i, j) =~= a.subrange(i, j));
                lemma_tokenize_append(a, b, j);
                let w = SToken::Ident(a.subrange(i, j));
                assert(seq![w] + tokenize_from(a, j)->Ok_0 + tok(b)->Ok_0 =~= seq![w] + (
                tokenize_from(a, j)->Ok_0 + tok(b)->Ok_0));
            } else {
                lemma_tokenize_append(a, b, i + 1);
            }
        }
    }
}

/// In simple text a bare word runs to the first stop character.
proof fn lemma_word_end_simple(s: Seq<char>, start: int, k: int)
    requires
        is_simple_text(s),
        0 <= k <= s.len(),
    ensures
        k <= word_end(s, start, k) <= s.len(),
        forall|m: int| k <= m < word_end(s, start, k) ==> !is_word_stop(#[trigger] s[m]),
        word_end(s, start, k) == s.len() || is_word_stop(s[word_end(s, start, k)]),
    decreases s.len() - k,
{
    if k < s.len() {
        assert(is_simple_char(s[k]));
        assert(!splits_comparison(s, start, k));
        if !is_word_stop(s[k]) {
            lemma_word_end_simple(s, start, k + 1);
        }
    }
}

/// Two pieces of simple text, where no word of the first runs on into the second, tokenize
/// to the tokens of the first followed by those of the second; their concatenation is
/// simple text when no `_` comes to follow a `"` on the line where they meet.
proof fn lemma_tok_concat(a: Seq<char>, b: Seq<char>)
    requires
        is_simple_text(a),
        is_simple_text(b),
        tok(a) is Ok,
        tok(b) is Ok,
        words_apart(a, b),
        !a.contains('"') || !b.contains('_') || (b.len() > 0 && b[0] == '\n') || (a.len() > 0
            && a.last() == '\n'),
    ensures
        is_simple_text(a + b),
        (a + b).contains('"') == (a.contains('"') || b.contains('"')),
        (a + b).contains('_') == (a.contains('_') || b.contains('_')),
        tok(a + b) == Ok::<Seq<SToken>, ()>(tok(a)->Ok_0 + tok(b)->Ok_0),
{
    let ab = a + b;
    assert(!a.contains('#')) by {
        if a.contains('#') {
            let i = choose|i: int| 0 <= i < a.len() && a[i] == '#';
            assert(is_simple_char(a[i]));
        }
    }
    lemma_tokenize_append(a, b, 0);
    assert forall|m: int| 0 <= m < ab.len() implies is_simple_char(#[trigger] ab[m]) by {
        if m < a.len() {
            assert(ab[m] == a[m]);
        } else {
            assert(ab[m] == b[m - a.len()]);
        }
    }
    if contains_seq(ab, dashes()) {
        let j = choose|j: int| occurs_at(ab, j, dashes());
        lemma_dashes_at(ab, j);
        if j + 1 < a.len() {
            assert(ab[j] == a[j] && ab[j + 1] == a[j + 1]);
            lemma_dashes_found(a, j);
        } else if j >= a.len() {
            assert(ab[j] == b[j - a.len()] && ab[j + 1] == b[j + 1 - a.len()]);
            lemma_dashes_found(b, j - a.len());
        } else {
            assert(ab[j] == a.last());
            assert(ab[j + 1] == b[0]);
        }
    }
    assert forall|i: int, j: int|
        #![trigger ab[i], ab[j]]
        0 <= i < j < ab.len() && ab[i] == '"' && ab[j] == '_' implies exists|m: int|
        i < m < j && ab[m] == '\n' by {
        if j < a.len() {
            assert(ab[i] == a[i] && ab[j] == a[j]);
            let m = choose|m: int| i < m < j && a[m] == '\n';
            assert(ab[m] == a[m]);
        } else if i >= a.len() {
            assert(ab[i] == b[i - a.len()] && ab[j] == b[j - a.len()]);
            let m = choose|m: int| i - a.len() < m < j - a.len() && b[m] == '\n';
            assert(ab[m + a.len()] == b[m]);
        } else {
            assert(ab[i] == a[i] && ab[j] == b[j - a.len()]);
            assert(a.contains('"'));
            assert(b.contains('_'));
            if b.len() > 0 && b[0] == '\n' {
                assert(ab[a.len() as int] == b[0]);
                assert(a.len() < j);
            } else {
                assert(ab[a.len() - 1] == a.last());
                assert(i < a.len() - 1);
            }
        }
    }
    assert((a + b).contains('"') == (a.contains('"') || b.contains('"'))) by {
        if ab.contains('"') {
            let m = choose|m: int| 0 <= m < ab.len() && ab[m] == '"';
            if m < a.len() {
                assert(a[m] == ab[m]);
            } else {
                assert(b[m - a.len()] == ab[m]);
            }
        }
        if a.contains('"') {
            let m = choose|m: int| 0 <= m < a.len() && a[m] == '"';
            assert(ab[m] == a[m]);
        }
        if b.contains('"') {
            let m = choose|m: int| 0 <= m < b.len() && b[m] == '"';
            assert(ab[m + a.len()] == b[m]);
        }
    }
    assert((a + b).contains('_') == (a.contains('_') || b.contains('_'))) by {
        if ab.contains('_') {
            let m = choose|m: int| 0 <= m < ab.len() && ab[m] == '_';
            if m < a.len() {
                assert(a[m] == ab[m]);
            } else {
                assert(b[m - a.len()] == ab[m]);
            }
        }
        if a.contains('_') {
            let m = choose|m: int| 0 <= m < a.len() && a[m] == '_';
            assert(ab[m] == a[m]);
        }
        if b.contains('_') {
            let m = choose|m: int| 0 <= m < b.len() && b[m] == '_';
            assert(ab[m + a.len()] == b[m]);
        }
    }
}


/// A character of a plain name: an ASCII letter or digit, `_`, `.` or `-`.
pub open spec fn is_name_char(c: char) -> bool {
    is_word_char(c) || c == '.' || c == '-'
}

/// A plain name: ASCII letters, digits, underscores, dots and dashes, with no two dashes in
/// a row.
pub open spec fn is_plain_word(w: Seq<char>) -> bool {
    &&& w.len() > 0
    &&& forall|i: int| 0 <= i < w.len() ==> is_name_char(#[trigger] w[i])
    &&& !contains_seq(w, dashes())
}

/// A plain name written as it stands: not a decimal whose fraction ends in a zero (those are
/// written trimmed, `1.50` as `1.5`).
pub open spec fn is_plain_scalar(w: Seq<char>) -> bool {
    is_plain_word(w) && trim_plain_decimal(w) is None
}

/// A character of plain quoted text: a character of a plain name other than `_`, or a space.
pub open spec fn is_quoted_char(c: char) -> bool {
    (is_name_char(c) && c != '_') || c == ' '
}

/// A plain quoted scalar: `"`, plain quoted text with no `--`, and `"`.
pub open spec fn is_plain_quoted(w: Seq<char>) -> bool {
    &&& w.len() >= 2
    &&& w[0] == '"'
    &&& w.last() == '"'
    &&& forall|i: int| 0 < i < w.len() - 1 ==> is_quoted_char(#[trigger] w[i])
    &&& !contains_seq(w, dashes())
}

/// The token a scalar value is read from: a string literal when it is quoted, a bare word
/// otherwise.
pub open spec fn scalar_token(w: Seq<char>) -> SToken {
    if w.len() > 0 && w[0] == '"' {
        SToken::Str(w)
    } else {
        SToken::Ident(w)
    }
}

/// A `template_counter` entry whose value is a number with leading zeros (written without
/// them).
pub open spec fn counter_with_leading_zero(key: Seq<char>, v: SValue) -> bool {
    &&& key == template_counter_key()
    &&& v matches SValue::Scalar(w) && w.len() > 1 && w[0] == '0' && all_ascii_digits(w)
}

/// A scalar that stands alone on a line of a block and reads back as itself: a plain name,
/// or a plain quoted scalar without spaces.
pub open spec fn is_item_word(w: Seq<char>) -> bool {
    is_plain_word(w) || (is_plain_quoted(w) && !w.contains(' '))
}

/// A scalar that a list writes as it stands: a plain scalar, or a plain quoted scalar
/// without spaces.
pub open spec fn is_item_scalar(w: Seq<char>) -> bool {
    is_plain_scalar(w) || (is_plain_quoted(w) && !w.contains(' '))
}

/// A plain item of a list: an item word, or a block of plain entries.
pub open spec fn plain_item(v: SValue) -> bool
    decreases v, 0int,
{
    match v {
        SValue::Scalar(w) => is_item_word(w),
        SValue::AnonymousObject(es) => plain_scope(seq![], es),
        _ => false,
    }
}

/// Each item is a plain item.
pub open spec fn plain_items(items: Seq<SValue>) -> bool
    decreases items, 0int,
{
    if items.len() == 0 {
        true
    } else {
        plain_items(items.drop_last()) && plain_item(items.last())
    }
}

/// A color keyword followed by one-line scalars only: such a list reads back as a color.
pub open spec fn reads_as_color(items: Seq<SValue>) -> bool {
    &&& items.len() >= 2
    &&& items[0] is Scalar
    &&& is_color_keyword(items[0]->Scalar_0)
    &&& all_plain_scalars(items.skip(1))
}

/// The scalar items of a list are written as they stand: none is a decimal whose fraction
/// ends in a zero.
pub open spec fn items_untrimmed(items: Seq<SValue>) -> bool {
    forall|i: int| 0 <= i < items.len() ==> (#[trigger] items[i] is Scalar ==> trim_plain_decimal(
        items[i]->Scalar_0,
    ) is None)
}

/// A plain list: one or more plain items written as they stand, unless it reads back as a
/// color.
pub open spec fn plain_list(items: Seq<SValue>) -> bool
    decreases items, 1int,
{
    &&& items.len() > 0
    &&& plain_items(items)
    &&& items_untrimmed(items)
    &&& !reads_as_color(items)
}

/// A color scalar as reading gives it: a color keyword, ` { `, plain names (such as numbers)
/// separated by single spaces, and ` }` (`rgb { 153 0 51 }`).
pub open spec fn is_plain_color(w: Seq<char>) -> bool {
    match color_parts(w) {
        Some((kw, inner)) => {
            let ps = split_ws(inner);
            &&& ps.len() > 0
            &&& forall|i: int| 0 <= i < ps.len() ==> is_plain_word(#[trigger] ps[i])
            &&& inner == join_space(ps)
        },
        None => false,
    }
}

/// The items a color scalar is written as, one per line: its keyword, then its components.
pub open spec fn color_items(w: Seq<char>) -> Seq<SValue> {
    seq![SValue::Scalar(color_parts(w)->Some_0.0)] + split_ws(color_parts(w)->Some_0.1).map_values(
        |p: Seq<char>| SValue::Scalar(p),
    )
}

/// A plain value: a plain scalar, a plain quoted scalar, a plain color, a plain list, or a
/// keyed block of plain entries.
pub open spec fn plain_value(v: SValue) -> bool
    decreases v, 0int,
{
    match v {
        SValue::Scalar(w) => is_plain_scalar(w) || is_plain_quoted(w) || is_plain_color(w),
        SValue::Object(es) => plain_scope(seq![], es),
        SValue::Array(items) => plain_list(items),
        _ => false,
    }
}

/// Plain entries of a scope that already holds `acc`: plain names as keys, plain values, not
/// read from quoted scripts, no `template_counter` with leading zeros, and each recording its
/// rank among the earlier entries of the scope with its key, as reading records it.
pub open spec fn plain_scope(acc: Seq<SEntry>, es: Seq<SEntry>) -> bool
    decreases es, 0int,
{
    if es.len() == 0 {
        true
    } else {
        let e = es.last();
        &&& plain_scope(acc, es.drop_last())
        &&& is_plain_word(e.key)
        &&& e.meta == duplicate_meta(key_count(acc + es.drop_last(), e.key), false)
        &&& plain_value(e.value)
        &&& !counter_with_leading_zero(e.key, e.value)
    }
}

/// Words on lines of their own: a bare word token for each, with line breaks between them.
pub open spec fn word_lines(ws: Seq<Seq<char>>) -> Seq<SToken>
    decreases ws.len(),
{
    if ws.len() == 0 {
        seq![]
    } else if ws.len() == 1 {
        seq![SToken::Ident(ws[0])]
    } else {
        word_lines(ws.drop_last()) + seq![SToken::Newline, SToken::Ident(ws.last())]
    }
}

/// The tokens of a color written as a block: `{`, a line break, its keyword and components
/// on lines of their own, a line break and `}`.
pub open spec fn color_tokens(w: Seq<char>) -> Seq<SToken> {
    seq![SToken::LBrace, SToken::Newline] + word_lines(
        seq![color_parts(w)->Some_0.0] + split_ws(color_parts(w)->Some_0.1),
    ) + seq![SToken::Newline, SToken::RBrace]
}

/// The tokens of an entry as it is written.
pub open spec fn entry_tokens(e: SEntry) -> Seq<SToken>
    decreases e,
{
    seq![SToken::Ident(e.key), SToken::Equals] + match e.value {
        SValue::Scalar(w) => if is_plain_color(w) {
            color_tokens(w)
        } else {
            seq![scalar_token(w)]
        },
        SValue::Object(es) => seq![SToken::LBrace, SToken::Newline] + (if es.len() == 0 {
            seq![]
        } else {
            scope_tokens(es) + seq![SToken::Newline]
        }) + seq![SToken::RBrace],
        SValue::Array(items) => seq![SToken::LBrace, SToken::Newline] + list_tokens(items) + seq![
            SToken::Newline,
            SToken::RBrace,
        ],
        _ => seq![],
    }
}

/// The tokens of a list item as it is written: a name, or a block of entries.
pub open spec fn item_tokens(v: SValue) -> Seq<SToken>
    decreases v,
{
    match v {
        SValue::Scalar(w) => seq![scalar_token(w)],
        SValue::AnonymousObject(es) => seq![SToken::LBrace, SToken::Newline] + (if es.len() == 0 {
            seq![]
        } else {
            scope_tokens(es) + seq![SToken::Newline]
        }) + seq![SToken::RBrace],
        _ => seq![],
    }
}

/// The tokens of the items of a plain list, with a line break between two items.
pub open spec fn list_tokens(items: Seq<SValue>) -> Seq<SToken>
    decreases items,
{
    if items.len() == 0 {
        seq![]
    } else if items.len() == 1 {
        item_tokens(items[0])
    } else {
        list_tokens(items.drop_last()) + seq![SToken::Newline] + item_tokens(items.last())
    }
}

/// What reading a list item collects: its name, or the block as a nested value.
pub open spec fn item_event(v: SValue) -> SEvent {
    match v {
        SValue::Scalar(w) => SEvent::Scalar(w),
        _ => SEvent::Nested(v),
    }
}

/// What reading the items of a plain list collects, with a line break between two items.
pub open spec fn list_events(items: Seq<SValue>) -> Seq<SEvent>
    decreases items.len(),
{
    if items.len() == 0 {
        seq![]
    } else if items.len() == 1 {
        seq![item_event(items[0])]
    } else {
        list_events(items.drop_last()) + seq![SEvent::Newline, item_event(items.last())]
    }
}

/// The text of a list item at `indent`: a name after the tabs, or `{`, the entries one
/// level deeper, and `}`.
pub open spec fn item_text(v: SValue, indent: nat) -> Seq<char> {
    match v {
        SValue::Scalar(w) => tabs(indent) + w,
        SValue::AnonymousObject(es) => if es.len() == 0 {
            tabs(indent) + seq!['{', '\n'] + tabs(indent) + seq!['}']
        } else {
            tabs(indent) + seq!['{', '\n'] + scope_text(es, indent + 1) + seq!['\n'] + tabs(indent)
                + seq!['}']
        },
        _ => Seq::empty(),
    }
}

/// The texts of the items of a list.
pub open spec fn item_texts(items: Seq<SValue>, indent: nat) -> Seq<Seq<char>> {
    items.map_values(|v: SValue| item_text(v, indent))
}

/// The tokens of the entries of a scope, one line each.
pub open spec fn scope_tokens(es: Seq<SEntry>) -> Seq<SToken>
    decreases es,
{
    if es.len() == 0 {
        seq![]
    } else if es.len() == 1 {
        entry_tokens(es[0])
    } else {
        scope_tokens(es.drop_last()) + seq![SToken::Newline] + entry_tokens(es.last())
    }
}

/// The text of the entries of a scope at `indent`: one per line after `indent` tabs.
pub open spec fn scope_text(es: Seq<SEntry>, indent: nat) -> Seq<char> {
    join(with_prefix(entries_texts(es, indent, false, true), tabs(indent)), lf())
}

proof fn lemma_tok_tabs(n: nat)
    ensures
        is_simple_text(tabs(n)),
        tok(tabs(n)) == Ok::<Seq<SToken>, ()>(seq![]),
    decreases n,
{
    if n > 0 {
        lemma_tok_tabs((n - 1) as nat);
        assert(tabs(n) =~= tabs((n - 1) as nat) + seq!['\t']);
        reveal_with_fuel(tokenize_from, 3);
        assert(tok(seq!['\t']) == Ok::<Seq<SToken>, ()>(seq![]));
        lemma_simple_lit(seq!['\t']);
        lemma_tok_concat(tabs((n - 1) as nat), seq!['\t']);
        assert(Seq::<SToken>::empty() + Seq::<SToken>::empty() =~= Seq::<SToken>::empty());
    } else {
        assert(tabs(n) =~= Seq::<char>::empty());
        lemma_simple_lit(tabs(n));
    }
}

proof fn lemma_tok_word(w: Seq<char>)
    requires
        is_plain_word(w),
    ensures
        is_simple_text(w),
        !w.contains('"'),
        tok(w) == Ok::<Seq<SToken>, ()>(seq![SToken::Ident(w)]),
{
    assert(is_simple_text(w)) by {
        assert forall|i: int| 0 <= i < w.len() implies is_simple_char(#[trigger] w[i]) by {
            assert(is_name_char(w[i]));
        }
    }
    assert(!w.contains('"')) by {
        if w.contains('"') {
            let i = choose|i: int| 0 <= i < w.len() && w[i] == '"';
            assert(is_name_char(w[i]));
        }
    }
    lemma_word_end_simple(w, 0, 0);
    let j = word_end(w, 0, 0);
    assert(j == w.len()) by {
        if j < w.len() {
            assert(is_name_char(w[j]));
        }
    }
    assert(!is_word_stop(w[0])) by {
        assert(is_name_char(w[0]));
    }
    assert(w.subrange(0, j) =~= w);
    assert(tokenize_from(w, j) == Ok::<Seq<SToken>, ()>(seq![]));
    assert(seq![SToken::Ident(w)] + Seq::<SToken>::empty() =~= seq![SToken::Ident(w)]);
}

/// The text of one character is simple when the character is.
proof fn lemma_simple_lit(s: Seq<char>)
    requires
        forall|i: int| 0 <= i < s.len() ==> #[trigger] s[i] == ' ' || s[i] == '=' || s[i] == '{'
            || s[i] == '}' || s[i] == '\n' || s[i] == '\t',
    ensures
        is_simple_text(s),
{
    if contains_seq(s, dashes()) {
        let j = choose|j: int| occurs_at(s, j, dashes());
        lemma_dashes_at(s, j);
    }
}

proof fn lemma_tok_pieces()
    ensures
        tok(seq![' ', '=', ' ']) == Ok::<Seq<SToken>, ()>(seq![SToken::Equals]),
        tok(seq![' ', '=', ' ', '{', '\n']) == Ok::<Seq<SToken>, ()>(
            seq![SToken::Equals, SToken::LBrace, SToken::Newline],
        ),
        tok(seq!['\n']) == Ok::<Seq<SToken>, ()>(seq![SToken::Newline]),
        tok(seq!['}']) == Ok::<Seq<SToken>, ()>(seq![SToken::RBrace]),
        tok(seq!['{', '\n']) == Ok::<Seq<SToken>, ()>(seq![SToken::LBrace, SToken::Newline]),
        is_simple_text(seq!['{', '\n']),
        is_simple_text(seq![' ', '=', ' ']),
        is_simple_text(seq![' ', '=', ' ', '{', '\n']),
        is_simple_text(seq!['\n']),
        is_simple_text(seq!['}']),
{
    reveal_with_fuel(tokenize_from, 7);
    lemma_simple_lit(seq![' ', '=', ' ']);
    lemma_simple_lit(seq![' ', '=', ' ', '{', '\n']);
    lemma_simple_lit(seq!['\n']);
    lemma_simple_lit(seq!['}']);
    lemma_simple_lit(seq!['{', '\n']);
    assert(seq![SToken::LBrace] + (seq![SToken::Newline] + Seq::<SToken>::empty()) =~= seq![
        SToken::LBrace,
        SToken::Newline,
    ]);
    assert(seq![SToken::Equals] + Seq::<SToken>::empty() =~= seq![SToken::Equals]);
    assert(seq![SToken::Newline] + Seq::<SToken>::empty() =~= seq![SToken::Newline]);
    assert(seq![SToken::RBrace] + Seq::<SToken>::empty() =~= seq![SToken::RBrace]);
    assert(seq![SToken::Equals] + (seq![SToken::LBrace] + (seq![SToken::Newline]
        + Seq::<SToken>::empty())) =~= seq![SToken::Equals, SToken::LBrace, SToken::Newline]);
}


/// A string literal of plain quoted text closes at its last `"`.
proof fn lemma_string_close_quoted(w: Seq<char>, i: int)
    requires
        is_plain_quoted(w),
        1 <= i <= w.len() - 1,
    ensures
        string_close(w, i, false) == Some(w.len() as int),
    decreases w.len() - i,
{
    if i < w.len() - 1 {
        assert(is_quoted_char(w[i]));
        lemma_string_close_quoted(w, i + 1);
    } else {
        assert(w[i] == w.last());
    }
}

/// Plain quoted text holds no backslash and no `_`.
proof fn lemma_quoted_chars(w: Seq<char>)
    requires
        is_plain_quoted(w),
    ensures
        forall|i: int| 0 <= i < w.len() ==> #[trigger] w[i] != '\\' && w[i] != '_' && w[i] != '#'
            && is_simple_char(w[i]) && w[i] != '>' && w[i] != '<' && w[i] != '=' && w[i] != ':'
            && w[i] != '[' && w[i] != ']' && w[i] != '%' && w[i] != '!' && w[i] != '&'
            && w[i] != '\n',
        !w.contains('_'),
        !contains_seq(w, seq!['\\', '"']),
{
    assert forall|i: int| 0 <= i < w.len() implies #[trigger] w[i] != '\\' && w[i] != '_' && w[i]
        != '#' && is_simple_char(w[i]) && w[i] != '>' && w[i] != '<' && w[i] != '=' && w[i]
        != ':' && w[i] != '[' && w[i] != ']' && w[i] != '%' && w[i] != '!' && w[i] != '&' && w[i]
        != '\n' by {
        if i == 0 || i == w.len() - 1 {
            assert(w.last() == w[w.len() - 1]);
        } else {
            assert(is_quoted_char(w[i]));
        }
    }
    if w.contains('_') {
        let i = choose|i: int| 0 <= i < w.len() && w[i] == '_';
    }
    if contains_seq(w, seq!['\\', '"']) {
        let i = choose|i: int| occurs_at(w, i, seq!['\\', '"']);
        assert(w.subrange(i, i + 2)[0] == w[i]);
    }
}

/// Plain quoted text is simple text that tokenizes to one string literal.
proof fn lemma_tok_quoted(w: Seq<char>)
    requires
        is_plain_quoted(w),
    ensures
        is_simple_text(w),
        ends_in_line(w),
        !w.contains('_'),
        tok(w) == Ok::<Seq<SToken>, ()>(seq![SToken::Str(w)]),
{
    lemma_quoted_chars(w);
    lemma_string_close_quoted(w, 1);
    assert(w.subrange(0, w.len() as int) =~= w);
    assert(tokenize_from(w, w.len() as int) == Ok::<Seq<SToken>, ()>(seq![]));
    assert(seq![SToken::Str(w)] + Seq::<SToken>::empty() =~= seq![SToken::Str(w)]);
}

/// A plain quoted scalar is written as it stands, on one line.
proof fn lemma_plain_quoted_text(k: Seq<char>, w: Seq<char>)
    requires
        is_plain_quoted(w),
    ensures
        spec_escape(render_entry_scalar(k, normalize_quoted_like_java(canonicalize_quoted_script(w)), true))
            == w,
        spec_escape(or_raw(render_scalar(w, true), w)) == w,
        !is_multiline_value(SValue::Scalar(w)),
{
    lemma_quoted_chars(w);
    assert(canonicalize_quoted_script(w) == w);
    assert(normalize_quoted_like_java(w) == w);
    assert(trim_template_counter(k, w) is None);
    assert(trim_plain_decimal(w) is None);
    assert(trim_operator_numeric(w) is None);
    assert(render_entry_scalar(k, w, true) == w);
    assert forall|i: int, m: int|
        0 <= i < w.len() && 0 <= m < escape_rules().len() && escape_rules()[m].0.len() > 0 implies escape_rules()[m].0[0]
        != #[trigger] w[i] || #[trigger] escape_rules()[m].0.len() == 0 by {
        let c = escape_rules()[m].0[0];
        assert(c == '>' || c == '<' || c == '=' || c == ':' || c == '[' || c == ']');
    }
    lemma_rewrite_identity(w, escape_rules());
    assert forall|k2: int| 0 <= k2 < 3 implies color_with(w, k2) is None by {
        let kw = color_keywords()[k2];
        let prefix = kw + seq![' ', '{', ' '];
        if occurs_at(w, 0, prefix) {
            assert(w.subrange(0, prefix.len() as int)[0] == w[0]);
        }
    }
    assert(color_with(w, 0) is None);
    assert(color_with(w, 1) is None);
    assert(color_with(w, 2) is None);
    assert(color_body(w, 0) is None);
}

/// A plain quoted scalar is read back as itself and is no quoted script.
proof fn lemma_plain_quoted_read(w: Seq<char>)
    requires
        is_plain_quoted(w),
    ensures
        spec_normalize(w) == w,
        !is_op_text(w),
        spec_decode_nested(w) is None,
{
    lemma_quoted_chars(w);
    assert forall|i: int, k: int|
        0 <= k < parse_marker_rules().len() && parse_marker_rules()[k].0.len() > 0 implies !#[trigger] occurs_at(
        w,
        i,
        parse_marker_rules()[k].0,
    ) by {
        let pat = parse_marker_rules()[k].0;
        if occurs_at(w, i, pat) {
            assert(w.subrange(i, i + pat.len())[0] == w[i]);
            if k == 2 {
                assert(pat =~= dashes());
            } else {
                assert(pat[0] == '%' || pat[0] == '!' || pat[0] == '&');
            }
        }
    }
    lemma_rewrite_unmatched(w, parse_marker_rules());
    assert(w.last() == w[w.len() - 1]);
}

/// A plain name is written as it stands, on one line.
proof fn lemma_plain_scalar_text(k: Seq<char>, w: Seq<char>)
    requires
        is_plain_scalar(w),
        !counter_with_leading_zero(k, SValue::Scalar(w)),
    ensures
        spec_escape(render_entry_scalar(k, normalize_quoted_like_java(canonicalize_quoted_script(w)), true))
            == w,
        spec_escape(or_raw(render_scalar(w, true), w)) == w,
        !is_multiline_value(SValue::Scalar(w)),
{
    assert(is_name_char(w[0]));
    assert(canonicalize_quoted_script(w) == w);
    assert(normalize_quoted_like_java(w) == w);
    assert(trim_template_counter(k, w) is None) by {
        if k == template_counter_key() && all_ascii_digits(w) && w != seq!['0'] {
            assert(w[0] != '0') by {
                if w[0] == '0' && w.len() == 1 {
                    assert(w =~= seq!['0']);
                }
            }
            assert(trim_start_char(w, '0') == w);
        }
    }
    assert(w.last() == w[w.len() - 1]);
    assert(is_name_char(w[w.len() - 1]));
    lemma_starts_with2(w, '>', '=');
    lemma_starts_with2(w, '<', '=');
    lemma_starts_with2(w, '!', '=');
    lemma_starts_with1(w, '>');
    lemma_starts_with1(w, '<');
    lemma_starts_with1(w, '=');
    assert(leading_operator_len(w) == 0);
    assert(trim_operator_numeric(w) is None);
    assert(render_entry_scalar(k, w, true) == w);
    assert forall|i: int, m: int|
        0 <= i < w.len() && 0 <= m < escape_rules().len() && escape_rules()[m].0.len() > 0 implies escape_rules()[m].0[0]
        != #[trigger] w[i] || #[trigger] escape_rules()[m].0.len() == 0 by {
        assert(is_name_char(w[i]));
        let c = escape_rules()[m].0[0];
        assert(c == '>' || c == '<' || c == '=' || c == ':' || c == '[' || c == ']');
    }
    lemma_rewrite_identity(w, escape_rules());
    assert forall|k2: int| 0 <= k2 < 3 implies color_with(w, k2) is None by {
        let kw = color_keywords()[k2];
        let prefix = kw + seq![' ', '{', ' '];
        assert(kw.len() == 3);
        if occurs_at(w, 0, prefix) {
            assert(w.subrange(0, prefix.len() as int)[3] == w[3]);
            assert(prefix[3] == ' ');
            assert(is_name_char(w[3]));
        }
    }
    assert(color_with(w, 0) is None);
    assert(color_with(w, 1) is None);
    assert(color_with(w, 2) is None);
    assert(color_body(w, 0) is None);
}



/// Every item of a list of plain items is a plain item.
proof fn lemma_plain_items_index(items: Seq<SValue>, i: int)
    requires
        plain_items(items),
        0 <= i < items.len(),
    ensures
        plain_item(items[i]),
    decreases items.len(),
{
    if i < items.len() - 1 {
        lemma_plain_items_index(items.drop_last(), i);
        assert(items.drop_last()[i] == items[i]);
    }
}

/// Trimming the end of a text keeps a prefix of it.
proof fn lemma_trim_end_prefix(s: Seq<char>)
    ensures
        exists|k: int| 0 <= k <= s.len() && trim_end(s) == s.take(k),
    decreases s.len(),
{
    if s.len() > 0 && unicode_whitespace(s.last()) {
        lemma_trim_end_prefix(s.drop_last());
        let k = choose|k: int| 0 <= k <= s.drop_last().len() && trim_end(s.drop_last()) == s.drop_last().take(k);
        assert(s.drop_last().take(k) =~= s.take(k));
    } else {
        assert(s.take(s.len() as int) =~= s);
    }
}

/// What a list needs of an item scalar: no `=`, no space, not starting with a sign, written
/// as it stands, and read back as itself.
proof fn lemma_item_scalar(w: Seq<char>)
    requires
        is_item_word(w),
    ensures
        forall|i: int| 0 <= i < w.len() ==> #[trigger] w[i] != '=',
        !w.contains(' '),
        w.len() > 0,
        w[0] != '<' && w[0] != '>' && w[0] != '=' && w[0] != '!',
        spec_normalize(w) == w,
        !has_unclosed_quote(w),
        join_space(seq![w]) == w,
{
    if is_plain_quoted(w) {
        lemma_quoted_chars(w);
        lemma_plain_quoted_text(Seq::<char>::empty(), w);
        lemma_plain_quoted_read(w);
        lemma_quote_scan_quoted(w);
    } else {
        assert forall|i: int| 0 <= i < w.len() implies #[trigger] w[i] != '=' by {
            assert(is_name_char(w[i]));
        }
        assert(!w.contains(' ')) by {
            if w.contains(' ') {
                let j = choose|j: int| 0 <= j < w.len() && w[j] == ' ';
                assert(is_name_char(w[j]));
            }
        }
        assert(is_name_char(w[0]));
        lemma_plain_word_read(w);
        lemma_plain_word_unquoted(w);
    }
}

/// A list writes an item scalar as it stands.
proof fn lemma_item_scalar_render(w: Seq<char>)
    requires
        is_item_scalar(w),
    ensures
        spec_escape(or_raw(render_scalar(w, true), w)) == w,
{
    if is_plain_quoted(w) {
        lemma_plain_quoted_text(Seq::<char>::empty(), w);
    } else {
        assert(Seq::<char>::empty() != template_counter_key()) by {
            assert(template_counter_key().len() == 16);
        }
        lemma_plain_scalar_text(Seq::<char>::empty(), w);
    }
}

/// Trimmed, a text without `=` is not `=` and does not end in `=`.
proof fn lemma_plain_trim(w: Seq<char>)
    requires
        forall|i: int| 0 <= i < w.len() ==> #[trigger] w[i] != '=',
    ensures
        trim(w) != seq!['='],
        !ends_with(trim_end(w), seq!['=']),
{
    lemma_trim_start_suffix(w);
    let k1 = choose|k: int| 0 <= k <= w.len() && trim_start(w) == w.skip(k);
    let t = trim_start(w);
    lemma_trim_end_prefix(t);
    let k2 = choose|k: int| 0 <= k <= t.len() && trim_end(t) == t.take(k);
    if trim(w) == seq!['='] {
        assert(trim(w) == t.take(k2));
        assert(k2 == 1);
        assert(t.take(k2)[0] == t[0]);
        assert(t[0] == w[k1]);
    }
    lemma_trim_end_prefix(w);
    let k3 = choose|k: int| 0 <= k <= w.len() && trim_end(w) == w.take(k);
    if ends_with(trim_end(w), seq!['=']) {
        lemma_ends_with1(trim_end(w), '=');
        assert(trim_end(w).last() == w[k3 - 1]);
    }
}

/// Joining two non-empty lists of parts joins the two joined texts.
proof fn lemma_join_concat(p: Seq<Seq<char>>, q: Seq<Seq<char>>, sep: Seq<char>)
    requires
        p.len() > 0,
        q.len() > 0,
    ensures
        join(p + q, sep) == join(p, sep) + sep + join(q, sep),
    decreases q.len(),
{
    assert((p + q).drop_last() =~= if q.len() == 1 {
        p
    } else {
        p + q.drop_last()
    });
    assert((p + q).last() == q.last());
    if q.len() > 1 {
        lemma_join_concat(p, q.drop_last(), sep);
    } else {
        assert(q.last() == q[0]);
    }
}

/// A block item is written as `{`, its entries one level deeper, and `}`.
proof fn lemma_bare_block_text(es: Seq<SEntry>, ind: nat)
    ensures
        bare_block(SValue::AnonymousObject(es), ind, true) == item_text(SValue::AnonymousObject(es), ind),
{
    let v = SValue::AnonymousObject(es);
    let x = tabs(ind) + seq!['{'];
    let z = tabs(ind) + seq!['}'];
    let body = with_prefix(entries_texts(es, ind + 1, false, true), tabs(ind + 1));
    lemma_entries_texts_len(es, ind + 1, false, true);
    let parts = seq![x] + body.push(z);
    assert(parts.drop_last() =~= seq![x] + body);
    assert(parts.last() == z);
    assert(bare_block(v, ind, true) == join(parts, lf()));
    assert(parts.len() >= 2);
    assert(join(parts, lf()) == join(seq![x] + body, lf()) + lf() + z);
    if es.len() == 0 {
        assert(seq![x] + body =~= seq![x]);
        assert(join(seq![x], lf()) == x);
        assert(bare_block(v, ind, true) == x + lf() + z);
        assert(x + lf() + z =~= item_text(v, ind));
    } else {
        lemma_join_concat(seq![x], body, lf());
        assert(join(seq![x], lf()) == x);
        assert(join(body, lf()) == scope_text(es, ind + 1));
        assert(bare_block(v, ind, true) == x + lf() + scope_text(es, ind + 1) + lf() + z);
        assert(x + lf() + scope_text(es, ind + 1) + lf() + z =~= item_text(v, ind));
    }
}

/// The items of a plain list are written one per line (a block over several) from item `i` on.
proof fn lemma_list_chunks(items: Seq<SValue>, i: int, ind: nat)
    requires
        plain_items(items),
        items_untrimmed(items),
        0 <= i <= items.len(),
    ensures
        array_chunks(items, i, ind, true) =~= item_texts(items, ind).skip(i),
    decreases items.len() - i,
{
    let all = item_texts(items, ind);
    if i < items.len() {
        lemma_plain_items_index(items, i);
        assert(!then_equals_at(items, i)) by {
            if i + 2 < items.len() && items[i + 1] is Scalar {
                lemma_plain_items_index(items, i + 1);
                lemma_item_scalar(items[i + 1]->Scalar_0);
                lemma_plain_trim(items[i + 1]->Scalar_0);
            }
        }
        assert(!attached_at(items, i)) by {
            if i + 1 < items.len() && items[i + 1] is Scalar {
                lemma_plain_items_index(items, i + 1);
                lemma_item_scalar(items[i + 1]->Scalar_0);
            }
        }
        assert(!equals_at(items, i)) by {
            if items[i] is Scalar {
                lemma_item_scalar(items[i]->Scalar_0);
                lemma_plain_trim(items[i]->Scalar_0);
            }
        }
        lemma_list_chunks(items, i + 1, ind);
        match items[i] {
            SValue::Scalar(w) => {
                lemma_item_scalar(w);
                assert(trim_plain_decimal(w) is None);
                lemma_item_scalar_render(w);
                assert(value_text(items[i], ind, true, true) == w);
                assert(all.skip(i) =~= seq![tabs(ind) + w] + all.skip(i + 1));
            },
            SValue::AnonymousObject(es) => {
                lemma_bare_block_text(es, ind);
                assert(bare_block(items[i], ind, true).len() > 0) by {
                    assert(item_text(items[i], ind)[tabs(ind).len() as int] == '{');
                }
                assert(all.skip(i) =~= seq![item_text(items[i], ind)] + all.skip(i + 1));
            },
            _ => {},
        }
    }
}

/// A plain list is written as its items, one per line after `ind` tabs.
proof fn lemma_list_block(items: Seq<SValue>, ind: nat)
    requires
        plain_list(items),
    ensures
        multiline_value(SValue::Array(items), ind, true) == join(item_texts(items, ind), lf()),
{
    assert(!single_expression_array(items)) by {
        assert forall|i: int| 0 <= i < items.len() implies !is_comparison_text(
            scalar_of(#[trigger] items[i]),
        ) by {
            lemma_plain_items_index(items, i);
            if items[i] is Scalar {
                lemma_item_scalar(items[i]->Scalar_0);
            }
        }
    }
    lemma_list_chunks(items, 0, ind);
    assert(item_texts(items, ind).skip(0) =~= item_texts(items, ind));
}

/// A color keyword is a plain scalar.
proof fn lemma_color_keyword_plain(kw: Seq<char>)
    requires
        is_color_keyword(kw),
    ensures
        is_plain_scalar(kw),
{
    assert(kw.len() == 3);
    assert forall|i: int| 0 <= i < kw.len() implies is_name_char(#[trigger] kw[i]) && kw[i] != '-'
        && kw[i] != '.' by {}
    assert(!contains_seq(kw, dashes())) by {
        if contains_seq(kw, dashes()) {
            let i = choose|i: int| occurs_at(kw, i, dashes());
            lemma_dashes_at(kw, i);
        }
    }
    assert(!has_whitespace(kw));
    assert(kw.skip(0) =~= kw);
    lemma_find_from(kw, 0, '.');
    assert(find_from(kw, 0, '.') == 3);
}

/// Joined parts end with the last part.
proof fn lemma_join_last(parts: Seq<Seq<char>>, sep: Seq<char>)
    requires
        parts.len() > 0,
        parts.last().len() > 0,
    ensures
        join(parts, sep).len() > 0,
        join(parts, sep).last() == parts.last().last(),
{
    if parts.len() == 1 {
        assert(parts[0] == parts.last());
    }
}

/// A first line, then each part on a line of its own after `t`: the lines joined by line
/// feeds.
proof fn lemma_prefixed_lines_join(f: Seq<char>, q: Seq<Seq<char>>, t: Seq<char>)
    ensures
        join(seq![f] + q.map_values(|p: Seq<char>| t + p), lf()) == f + prefixed_lines(q, t),
    decreases q.len(),
{
    let all = seq![f] + q.map_values(|p: Seq<char>| t + p);
    if q.len() == 0 {
        assert(all =~= seq![f]);
        assert(f + prefixed_lines(q, t) =~= f);
    } else {
        let d = q.drop_last();
        lemma_prefixed_lines_join(f, d, t);
        let pre = seq![f] + d.map_values(|p: Seq<char>| t + p);
        assert(all.drop_last() =~= pre);
        assert(all.last() == t + q.last());
        assert(f + prefixed_lines(q, t) =~= f + prefixed_lines(d, t) + lf() + (t + q.last()));
    }
}

/// Items that are each plain are plain items.
proof fn lemma_plain_items_all(items: Seq<SValue>)
    requires
        forall|i: int| 0 <= i < items.len() ==> plain_item(#[trigger] items[i]),
    ensures
        plain_items(items),
    decreases items.len(),
{
    if items.len() > 0 {
        let d = items.drop_last();
        assert forall|i: int| 0 <= i < d.len() implies plain_item(#[trigger] d[i]) by {
            assert(d[i] == items[i]);
        }
        lemma_plain_items_all(d);
        assert(items.last() == items[items.len() - 1]);
    }
}

/// Bare words as list items give the words' tokens on lines of their own.
proof fn lemma_word_lines(ws: Seq<Seq<char>>)
    requires
        forall|i: int| 0 <= i < ws.len() ==> (#[trigger] ws[i]).len() > 0 && ws[i][0] != '"',
    ensures
        list_tokens(ws.map_values(|x: Seq<char>| SValue::Scalar(x))) == word_lines(ws),
    decreases ws.len(),
{
    let items = ws.map_values(|x: Seq<char>| SValue::Scalar(x));
    if ws.len() == 0 {
        assert(items.len() == 0);
    } else if ws.len() == 1 {
        assert(ws[0].len() > 0 && ws[0][0] != '"');
        assert(items[0] == SValue::Scalar(ws[0]));
        assert(scalar_token(ws[0]) == SToken::Ident(ws[0]));
        assert(item_tokens(items[0]) == seq![SToken::Ident(ws[0])]);
    } else {
        let l = ws.len() - 1;
        assert(ws[l].len() > 0 && ws[l][0] != '"');
        assert(scalar_token(ws[l]) == SToken::Ident(ws[l]));
        let d = ws.drop_last();
        assert forall|i: int| 0 <= i < d.len() implies (#[trigger] d[i]).len() > 0 && d[i][0] != '"' by {
            assert(d[i] == ws[i]);
        }
        lemma_word_lines(d);
        assert(items.drop_last() =~= d.map_values(|x: Seq<char>| SValue::Scalar(x)));
        assert(ws.last() == ws[l]);
        assert(items.last() == SValue::Scalar(ws.last()));
        assert(item_tokens(items.last()) == seq![SToken::Ident(ws.last())]);
        assert(list_tokens(items) == list_tokens(items.drop_last()) + seq![SToken::Newline]
            + item_tokens(items.last()));
        assert(word_lines(ws) == word_lines(d) + seq![SToken::Newline, SToken::Ident(ws.last())]);
        assert(list_tokens(items) =~= word_lines(ws));
    }
}

/// A plain color's tokens are those of its items written as a list block.
proof fn lemma_color_tokens(w: Seq<char>)
    requires
        is_plain_color(w),
    ensures
        color_tokens(w) == seq![SToken::LBrace, SToken::Newline] + list_tokens(color_items(w))
            + seq![SToken::Newline, SToken::RBrace],
{
    let kw = color_parts(w)->Some_0.0;
    let ps = split_ws(color_parts(w)->Some_0.1);
    let ws = seq![kw] + ps;
    lemma_color_items(w, 0);
    let k: int = if color_with(w, 0) is Some {
        0
    } else if color_with(w, 1) is Some {
        1
    } else {
        2
    };
    assert(kw == color_keywords()[k]);
    assert forall|i: int| 0 <= i < ws.len() implies (#[trigger] ws[i]).len() > 0 && ws[i][0] != '"' by {
        if i > 0 {
            assert(ws[i] == ps[i - 1]);
            assert(is_plain_word(ps[i - 1]));
            assert(is_name_char(ps[i - 1][0]));
        }
    }
    lemma_word_lines(ws);
    assert(ws.map_values(|x: Seq<char>| SValue::Scalar(x)) =~= color_items(w));
}

/// What writing and reading need of a plain color: its items are plain, collapse back into
/// the color, and are the lines of its block body.
#[verifier::rlimit(40)]
proof fn lemma_color_items(w: Seq<char>, n: nat)
    requires
        is_plain_color(w),
    ensures
        color_items(w).len() >= 2,
        plain_items(color_items(w)),
        forall|i: int| 0 <= i < color_items(w).len() ==> (#[trigger] color_items(w)[i] is Scalar
            && is_item_word(color_items(w)[i]->Scalar_0)),
        collapse_color(color_items(w)) == Some(w),
        color_body(w, n) == Some(join(item_texts(color_items(w), n), lf())),
{
    let kw = color_parts(w)->Some_0.0;
    let inner = color_parts(w)->Some_0.1;
    let ps = split_ws(inner);
    let items = color_items(w);
    let k: int = if color_with(w, 0) is Some {
        0
    } else if color_with(w, 1) is Some {
        1
    } else {
        2
    };
    assert(color_with(w, k) == Some((kw, inner)));
    assert(kw == color_keywords()[k]);
    assert(is_color_keyword(kw));
    let prefix = kw + seq![' ', '{', ' '];
    let plen = prefix.len() as int;
    assert(w.subrange(0, plen) == prefix);
    let rest = w.skip(plen);
    assert(rest.subrange(rest.len() - 2, rest.len() as int) == seq![' ', '}']);
    assert(inner == w.subrange(plen, w.len() - 2));
    assert forall|i: int| 0 <= i < w.len() implies w[i] == (prefix + inner + seq![' ', '}'])[i] by {
        if i < plen {
            assert(w.subrange(0, plen)[i] == w[i]);
        } else if i >= w.len() - 2 {
            assert(rest.subrange(rest.len() - 2, rest.len() as int)[i - (w.len() - 2)] == rest[i
                - plen]);
        }
    }
    assert(w =~= prefix + inner + seq![' ', '}']);
    let comps = ps.map_values(|p: Seq<char>| SValue::Scalar(p));
    assert(items =~= seq![SValue::Scalar(kw)] + comps);
    assert(items.skip(1) =~= comps);
    assert(scalar_texts(comps) =~= ps);
    assert forall|i: int| 0 <= i < comps.len() implies (#[trigger] comps[i] is Scalar
        && !comps[i]->Scalar_0.contains('\n')) by {
        assert(is_plain_word(ps[i]));
        if ps[i].contains('\n') {
            let j = choose|j: int| 0 <= j < ps[i].len() && ps[i][j] == '\n';
            assert(is_name_char(ps[i][j]));
        }
    }
    assert(all_plain_scalars(items.skip(1)));
    assert(collapse_color(items) == Some(w));
    lemma_color_keyword_plain(kw);
    assert forall|i: int| 0 <= i < items.len() implies plain_item(#[trigger] items[i]) by {
        if i > 0 {
            assert(items[i] == SValue::Scalar(ps[i - 1]));
            assert(is_plain_word(ps[i - 1]));
        }
    }
    lemma_plain_items_all(items);
    assert(is_plain_word(ps[0]));
    assert(is_plain_word(ps.last())) by {
        assert(ps.last() == ps[ps.len() - 1]);
    }
    lemma_join_starts(ps, seq![' '], 0);
    lemma_join_last(ps, seq![' ']);
    assert(is_name_char(ps[0][0]));
    assert(is_name_char(ps.last().last())) by {
        assert(ps.last().last() == ps.last()[ps.last().len() - 1]);
    }
    assert(trim_start(inner) == inner);
    assert(trim_end(inner) == inner);
    assert(trim(inner).len() > 0);
    let t = tabs(n);
    assert(item_texts(items, n) =~= seq![t + kw] + ps.map_values(|p: Seq<char>| t + p));
    lemma_prefixed_lines_join(t + kw, ps, t);
}

/// An item scalar is written after the tabs as simple text that tokenizes to its token.
proof fn lemma_scalar_item_text_tokens(w: Seq<char>, n: nat)
    requires
        is_item_word(w),
    ensures
        is_simple_text(item_text(SValue::Scalar(w), n)),
        tok(item_text(SValue::Scalar(w), n)) == Ok::<Seq<SToken>, ()>(
            item_tokens(SValue::Scalar(w)),
        ),
{
    lemma_tok_tabs(n);
    if is_plain_quoted(w) {
        lemma_tok_quoted(w);
    } else {
        lemma_tok_word(w);
        assert(w[0] != '"');
    }
    lemma_tok_concat(tabs(n), w);
    assert(Seq::<SToken>::empty() + seq![scalar_token(w)] =~= item_tokens(SValue::Scalar(w)));
}

/// A plain list item is written as simple text that tokenizes to its tokens.
#[verifier::rlimit(50)]
proof fn lemma_item_text_tokens(v: SValue, n: nat)
    requires
        plain_item(v),
    ensures
        is_simple_text(item_text(v, n)),
        tok(item_text(v, n)) == Ok::<Seq<SToken>, ()>(item_tokens(v)),
    decreases v, 0int,
{
    lemma_tok_tabs(n);
    lemma_tok_pieces();
    match v {
        SValue::Scalar(w) => {
            lemma_scalar_item_text_tokens(w, n);
        },
        SValue::AnonymousObject(es) => {
            let open = seq!['{', '\n'];
            let head = tabs(n) + open;
            let close = tabs(n) + seq!['}'];
            lemma_tok_concat(tabs(n), open);
            lemma_tok_concat(tabs(n), seq!['}']);
            if es.len() == 0 {
                lemma_tok_concat(head, close);
                assert(item_text(v, n) == head + close);
                assert(Seq::<SToken>::empty() + seq![SToken::LBrace, SToken::Newline] + (
                Seq::<SToken>::empty() + seq![SToken::RBrace]) =~= item_tokens(v));
            } else {
                let body = scope_text(es, n + 1);
                lemma_scope_text_tokens(seq![], es, n + 1);
                let tail = seq!['\n'] + close;
                lemma_tok_concat(seq!['\n'], close);
                assert(item_text(v, n) =~= head + body + tail);
                lemma_tok_concat(head, body);
                lemma_tok_concat(head + body, tail);
                assert(Seq::<SToken>::empty() + seq![SToken::LBrace, SToken::Newline] + scope_tokens(
                    es,
                ) + (seq![SToken::Newline] + (Seq::<SToken>::empty() + seq![SToken::RBrace]))
                    =~= item_tokens(v));
            }
        },
        _ => {},
    }
}

/// The lines of plain items are simple text that tokenizes to the items' tokens with line
/// breaks between them.
proof fn lemma_list_text_tokens(items: Seq<SValue>, n: nat)
    requires
        items.len() > 0,
        plain_items(items),
    ensures
        is_simple_text(join(item_texts(items, n), lf())),
        tok(join(item_texts(items, n), lf())) == Ok::<Seq<SToken>, ()>(list_tokens(items)),
    decreases items, 0int,
{
    let pre = item_texts(items, n);
    let v = items.last();
    assert(v == items[items.len() - 1]);
    lemma_plain_items_index(items, items.len() - 1);
    lemma_item_text_tokens(v, n);
    assert(pre.len() == items.len());
    assert(pre.last() == item_text(v, n));
    if items.len() == 1 {
        assert(join(pre, lf()) == item_text(v, n));
        assert(list_tokens(items) == item_tokens(items[0]));
    } else {
        let d = items.drop_last();
        assert(plain_items(d));
        lemma_list_text_tokens(d, n);
        let a = join(item_texts(d, n), lf());
        assert(pre.drop_last() =~= item_texts(d, n));
        assert(join(pre, lf()) == a + lf() + item_text(v, n));
        lemma_tok_pieces();
        lemma_tok_concat(a, lf());
        lemma_tok_concat(a + lf(), item_text(v, n));
        assert(tok(a + lf()) == Ok::<Seq<SToken>, ()>(list_tokens(d) + seq![SToken::Newline]));
        assert(list_tokens(items) == list_tokens(d) + seq![SToken::Newline] + item_tokens(v));
    }
}

/// The lines of item scalars are simple text that tokenizes to the scalars' tokens with
/// line breaks between them.
proof fn lemma_scalar_list_text_tokens(items: Seq<SValue>, n: nat)
    requires
        items.len() > 0,
        forall|i: int| 0 <= i < items.len() ==> (#[trigger] items[i] is Scalar && is_item_word(
            items[i]->Scalar_0,
        )),
    ensures
        is_simple_text(join(item_texts(items, n), lf())),
        tok(join(item_texts(items, n), lf())) == Ok::<Seq<SToken>, ()>(list_tokens(items)),
    decreases items.len(),
{
    let pre = item_texts(items, n);
    let v = items.last();
    assert(v == items[items.len() - 1]);
    lemma_scalar_item_text_tokens(v->Scalar_0, n);
    assert(pre.len() == items.len());
    assert(pre.last() == item_text(v, n));
    if items.len() == 1 {
        assert(join(pre, lf()) == item_text(v, n));
        assert(list_tokens(items) == item_tokens(items[0]));
    } else {
        let d = items.drop_last();
        assert forall|i: int| 0 <= i < d.len() implies (#[trigger] d[i] is Scalar && is_item_word(
            d[i]->Scalar_0,
        )) by {
            assert(d[i] == items[i]);
        }
        lemma_scalar_list_text_tokens(d, n);
        let a = join(item_texts(d, n), lf());
        assert(pre.drop_last() =~= item_texts(d, n));
        assert(join(pre, lf()) == a + lf() + item_text(v, n));
        lemma_tok_pieces();
        lemma_tok_concat(a, lf());
        lemma_tok_concat(a + lf(), item_text(v, n));
        assert(tok(a + lf()) == Ok::<Seq<SToken>, ()>(list_tokens(d) + seq![SToken::Newline]));
        assert(list_tokens(items) == list_tokens(d) + seq![SToken::Newline] + item_tokens(v));
    }
}

/// `key = {`, plain items one per line one level deeper, and `}` is simple text that
/// tokenizes to the key, `=` and the items' list block.
proof fn lemma_list_block_text_tokens(k: Seq<char>, items: Seq<SValue>, n: nat)
    requires
        is_plain_word(k),
        items.len() > 0,
        plain_items(items),
        is_simple_text(join(item_texts(items, n + 1), lf())),
        tok(join(item_texts(items, n + 1), lf())) == Ok::<Seq<SToken>, ()>(list_tokens(items)),
    ensures
        is_simple_text(keyed_block(k, join(item_texts(items, n + 1), lf()), n)),
        ends_in_line(keyed_block(k, join(item_texts(items, n + 1), lf()), n)),
        tok(keyed_block(k, join(item_texts(items, n + 1), lf()), n)) == Ok::<Seq<SToken>, ()>(
            seq![SToken::Ident(k), SToken::Equals, SToken::LBrace, SToken::Newline] + list_tokens(
                items,
            ) + seq![SToken::Newline, SToken::RBrace],
        ),
{
    lemma_tok_word(k);
    lemma_tok_pieces();
    let open = seq![' ', '=', ' ', '{', '\n'];
    lemma_tok_tabs(n);
    lemma_tok_concat(k, open);
    let head = k + open;
    let close = tabs(n) + seq!['}'];
    lemma_tok_concat(tabs(n), seq!['}']);
    let lines = item_texts(items, n + 1);
    let body = join(lines, lf());
    assert(body.len() > 0) by {
        lemma_plain_items_index(items, 0);
        assert(lines[0] == item_text(items[0], n + 1));
        assert(lines[0].len() > tabs(n + 1).len());
        lemma_join_starts(lines, lf(), tabs(n + 1).len() as int);
    }
    let tail = seq!['\n'] + close;
    lemma_tok_concat(seq!['\n'], close);
    assert(keyed_block(k, body, n) =~= head + body + tail);
    lemma_tok_concat(head, body);
    lemma_tok_concat(head + body, tail);
    assert(seq![SToken::Ident(k)] + seq![SToken::Equals, SToken::LBrace, SToken::Newline]
        + list_tokens(items) + (seq![SToken::Newline] + (Seq::<SToken>::empty() + seq![
        SToken::RBrace,
    ])) =~= seq![SToken::Ident(k), SToken::Equals, SToken::LBrace, SToken::Newline] + list_tokens(
        items,
    ) + seq![SToken::Newline, SToken::RBrace]);
}

/// A plain entry whose value is a plain list is written as simple text that tokenizes to its
/// tokens.
proof fn lemma_list_entry_text_tokens(e: SEntry, n: nat)
    requires
        is_plain_word(e.key),
        !e.meta.nested_quoted,
        e.value is Array,
        plain_value(e.value),
    ensures
        is_simple_text(entry_text(e, n, false, true)),
        ends_in_line(entry_text(e, n, false, true)),
        tok(entry_text(e, n, false, true)) == Ok::<Seq<SToken>, ()>(entry_tokens(e)),
    decreases e, 1int,
{
    let items = e.value->Array_0;
    assert(is_multiline_value(e.value));
    lemma_list_block(items, n + 1);
    lemma_list_text_tokens(items, n + 1);
    lemma_list_block_text_tokens(e.key, items, n);
    assert(entry_tokens(e) =~= seq![SToken::Ident(e.key), SToken::Equals, SToken::LBrace, SToken::Newline]
        + list_tokens(items) + seq![SToken::Newline, SToken::RBrace]);
}

/// A plain entry whose value is a plain color is written as a block of its items, simple
/// text that tokenizes to its tokens.
proof fn lemma_color_entry_text_tokens(e: SEntry, n: nat)
    requires
        is_plain_word(e.key),
        !e.meta.nested_quoted,
        e.value matches SValue::Scalar(w) && is_plain_color(w),
    ensures
        is_simple_text(entry_text(e, n, false, true)),
        ends_in_line(entry_text(e, n, false, true)),
        tok(entry_text(e, n, false, true)) == Ok::<Seq<SToken>, ()>(entry_tokens(e)),
{
    let w = e.value->Scalar_0;
    let items = color_items(w);
    lemma_color_items(w, 0);
    lemma_color_items(w, n + 1);
    assert(is_multiline_value(e.value));
    assert(multiline_value(e.value, n + 1, true) == join(item_texts(items, n + 1), lf()));
    lemma_scalar_list_text_tokens(items, n + 1);
    lemma_list_block_text_tokens(e.key, items, n);
    lemma_color_tokens(w);
    assert(entry_tokens(e) =~= seq![SToken::Ident(e.key), SToken::Equals, SToken::LBrace, SToken::Newline]
        + list_tokens(items) + seq![SToken::Newline, SToken::RBrace]);
}

/// A plain entry with a scalar value is written on one line as simple text that tokenizes to
/// its tokens.
proof fn lemma_scalar_entry_text_tokens(e: SEntry, n: nat)
    requires
        is_plain_word(e.key),
        !e.meta.nested_quoted,
        e.value is Scalar,
        plain_value(e.value),
        !is_plain_color(e.value->Scalar_0),
        !counter_with_leading_zero(e.key, e.value),
    ensures
        is_simple_text(entry_text(e, n, false, true)),
        ends_in_line(entry_text(e, n, false, true)),
        tok(entry_text(e, n, false, true)) == Ok::<Seq<SToken>, ()>(entry_tokens(e)),
{
    let k = e.key;
    let w = e.value->Scalar_0;
    lemma_tok_word(k);
    lemma_tok_pieces();
    let eq = seq![' ', '=', ' '];
    if is_plain_quoted(w) {
        lemma_plain_quoted_text(k, w);
        lemma_tok_quoted(w);
    } else {
        lemma_plain_scalar_text(k, w);
        lemma_tok_word(w);
    }
    assert(entry_text(e, n, false, true) == k + eq + w);
    lemma_tok_concat(k, eq);
    assert(!eq.contains('"')) by {
        if eq.contains('"') {
            let i = choose|i: int| 0 <= i < eq.len() && eq[i] == '"';
        }
    }
    lemma_tok_concat(k + eq, w);
    assert(seq![SToken::Ident(k)] + seq![SToken::Equals] + seq![scalar_token(w)]
        =~= entry_tokens(e));
    assert((k + eq + w).last() == w.last());
}

/// A plain entry is written as simple text that tokenizes to its tokens.
#[verifier::rlimit(50)]
proof fn lemma_entry_text_tokens(e: SEntry, n: nat)
    requires
        is_plain_word(e.key),
        !e.meta.nested_quoted,
        plain_value(e.value),
        !counter_with_leading_zero(e.key, e.value),
    ensures
        is_simple_text(entry_text(e, n, false, true)),
        ends_in_line(entry_text(e, n, false, true)),
        tok(entry_text(e, n, false, true)) == Ok::<Seq<SToken>, ()>(entry_tokens(e)),
    decreases e, 2int,
{
    let k = e.key;
    lemma_tok_word(k);
    lemma_tok_pieces();
    let eq = seq![' ', '=', ' '];
    let open = seq![' ', '=', ' ', '{', '\n'];
    match e.value {
        SValue::Scalar(w) => {
            if is_plain_color(w) {
                lemma_color_entry_text_tokens(e, n);
            } else {
                lemma_scalar_entry_text_tokens(e, n);
            }
        },
        SValue::Object(es) => {
            assert(is_multiline_value(e.value));
            lemma_tok_tabs(n);
            lemma_tok_concat(k, open);
            let head = k + open;
            let close = tabs(n) + seq!['}'];
            lemma_tok_concat(tabs(n), seq!['}']);
            if es.len() == 0 {
                assert(multiline_value(e.value, n + 1, true) =~= Seq::<char>::empty());
                assert(entry_text(e, n, false, true) == head + close) by {
                    assert(keyed_block(k, Seq::<char>::empty(), n) =~= head + close);
                }
                lemma_tok_concat(head, close);
                assert(seq![SToken::Ident(k)] + seq![SToken::Equals, SToken::LBrace, SToken::Newline]
                    + (Seq::<SToken>::empty() + seq![SToken::RBrace]) =~= entry_tokens(e));
            } else {
                let body = scope_text(es, n + 1);
                lemma_scope_text_tokens(seq![], es, n + 1);
                assert(multiline_value(e.value, n + 1, true) == body);
                let tail = seq!['\n'] + close;
                lemma_tok_concat(seq!['\n'], close);
                assert(entry_text(e, n, false, true) == head + body + tail) by {
                    assert(keyed_block(k, body, n) =~= head + body + tail);
                }
                lemma_tok_concat(head, body);
                lemma_tok_concat(head + body, tail);
                assert(seq![SToken::Ident(k)] + seq![SToken::Equals, SToken::LBrace, SToken::Newline]
                    + scope_tokens(es) + (seq![SToken::Newline] + (Seq::<SToken>::empty() + seq![
                    SToken::RBrace,
                ])) =~= entry_tokens(e));
            }
        },
        SValue::Array(items) => {
            lemma_list_entry_text_tokens(e, n);
        },
        _ => {},
    }
}

proof fn lemma_entries_texts_len(es: Seq<SEntry>, n: nat, inline: bool, trim_numbers: bool)
    ensures
        entries_texts(es, n, inline, trim_numbers).len() == es.len(),
    decreases es.len(),
{
    if es.len() > 0 {
        lemma_entries_texts_len(es.drop_last(), n, inline, trim_numbers);
    }
}

/// The plain entries of a scope are written as simple text that tokenizes to their tokens.
proof fn lemma_scope_text_tokens(acc: Seq<SEntry>, es: Seq<SEntry>, n: nat)
    requires
        es.len() > 0,
        plain_scope(acc, es),
    ensures
        is_simple_text(scope_text(es, n)),
        ends_in_line(scope_text(es, n)),
        tok(scope_text(es, n)) == Ok::<Seq<SToken>, ()>(scope_tokens(es)),
    decreases es, 0int,
{
    let last = es.last();
    let t = entries_texts(es, n, false, true);
    let pre = with_prefix(t, tabs(n));
    lemma_entry_text_tokens(last, n);
    lemma_tok_tabs(n);
    let line = tabs(n) + entry_text(last, n, false, true);
    lemma_tok_concat(tabs(n), entry_text(last, n, false, true));
    lemma_entries_texts_len(es, n, false, true);
    assert(t.last() == entry_text(last, n, false, true));
    assert(pre.len() == es.len());
    assert(pre.last() == line);
    assert(ends_in_line(line)) by {
        assert(line.last() == entry_text(last, n, false, true).last());
    }
    if es.len() == 1 {
        assert(es[0] == last);
        assert(scope_text(es, n) == line);
        assert(Seq::<SToken>::empty() + entry_tokens(last) =~= scope_tokens(es));
    } else {
        let d = es.drop_last();
        lemma_scope_text_tokens(acc, d, n);
        assert(t.drop_last() == entries_texts(d, n, false, true));
        assert(pre.drop_last() =~= with_prefix(entries_texts(d, n, false, true), tabs(n)));
        assert(scope_text(es, n) == scope_text(d, n) + lf() + line);
        assert((scope_text(d, n) + lf() + line).last() == line.last());
        lemma_tok_pieces();
        lemma_tok_concat(scope_text(d, n), lf());
        lemma_tok_concat(scope_text(d, n) + lf(), line);
        assert(scope_tokens(d) + seq![SToken::Newline] + (Seq::<SToken>::empty() + entry_tokens(last))
            =~= scope_tokens(es));
    }
}


/// `t` stands in `ts` from `p` on.
pub open spec fn tokens_at(ts: Seq<SToken>, p: int, t: Seq<SToken>) -> bool {
    0 <= p && p + t.len() <= ts.len() && ts.subrange(p, p + t.len()) == t
}

/// A line of tokens ends at `q`: with a line break, a closing brace, or the end.
pub open spec fn ends_line(ts: Seq<SToken>, q: int) -> bool {
    q == ts.len() || (0 <= q < ts.len() && (ts[q] is Newline || ts[q] is RBrace))
}

proof fn lemma_tokens_at_split(ts: Seq<SToken>, p: int, a: Seq<SToken>, b: Seq<SToken>)
    requires
        tokens_at(ts, p, a + b),
    ensures
        tokens_at(ts, p, a),
        tokens_at(ts, p + a.len(), b),
{
    assert(ts.subrange(p, p + a.len()) =~= (a + b).subrange(0, a.len() as int)) by {
        assert(ts.subrange(p, p + a.len()) =~= ts.subrange(p, p + (a + b).len()).subrange(
            0,
            a.len() as int,
        ));
    }
    assert((a + b).subrange(0, a.len() as int) =~= a);
    assert(ts.subrange(p + a.len(), p + a.len() + b.len()) =~= ts.subrange(
        p,
        p + (a + b).len(),
    ).subrange(a.len() as int, (a + b).len() as int));
    assert((a + b).subrange(a.len() as int, (a + b).len() as int) =~= b);
}

proof fn lemma_tokens_at_index(ts: Seq<SToken>, p: int, t: Seq<SToken>, i: int)
    requires
        tokens_at(ts, p, t),
        0 <= i < t.len(),
    ensures
        ts[p + i] == t[i],
{
    assert(ts.subrange(p, p + t.len())[i] == ts[p + i]);
}

/// A plain name is read back as itself.
proof fn lemma_plain_word_read(w: Seq<char>)
    requires
        is_plain_word(w),
    ensures
        spec_normalize(w) == w,
        !is_op_text(w),
        spec_decode_nested(w) is None,
{
    assert forall|i: int, k: int|
        0 <= k < parse_marker_rules().len() && parse_marker_rules()[k].0.len() > 0 implies !#[trigger] occurs_at(
        w,
        i,
        parse_marker_rules()[k].0,
    ) by {
        let pat = parse_marker_rules()[k].0;
        if occurs_at(w, i, pat) {
            assert(w.subrange(i, i + pat.len())[0] == w[i]);
            assert(is_name_char(w[i]));
            if k == 2 {
                assert(pat =~= dashes());
            } else {
                assert(pat[0] == '%' || pat[0] == '!' || pat[0] == '&');
            }
        }
    }
    lemma_rewrite_unmatched(w, parse_marker_rules());
    assert(w.last() == w[w.len() - 1]);
    assert(is_name_char(w[w.len() - 1]));
    assert(is_name_char(w[0]));
    if is_op_text(w) {
        assert(w[0] == '>' || w[0] == '<' || w[0] == '!' || w[0] == '=');
    }
}

/// The value of a plain entry with a plain name as its value is that name.
proof fn lemma_scalar_value(ts: Seq<SToken>, p: int, k: Seq<char>, w: Seq<char>)
    requires
        is_plain_word(w) || is_plain_quoted(w),
        0 <= p,
        p + 3 <= ts.len(),
        ts[p + 2] == scalar_token(w),
        ends_line(ts, p + 3),
    ensures
        scalar_sequence(ts, p + 2, None) == Ok::<(Seq<char>, int), Seq<char>>((w, p + 3)),
        nested_script(k, w) is None,
{
    if is_plain_quoted(w) {
        lemma_plain_quoted_read(w);
    } else {
        lemma_plain_word_read(w);
        assert(is_name_char(w[0]));
    }
    assert(word_text(ts[p + 2]) == w);
    assert(scalar_loop(ts, p + 3, w, true, false) == Ok::<(Seq<char>, int), Seq<char>>((w, p + 3)));
    assert(append_part(Seq::<char>::empty(), false, w) =~= w);
    assert(scalar_loop(ts, p + 2, Seq::<char>::empty(), false, false) == Ok::<
        (Seq<char>, int),
        Seq<char>,
    >((w, p + 3)));
    assert(nested_script(k, w) is None) by {
        if should_attempt_nested(k, w) {
            assert(spec_decode_nested(w) is None);
        }
    }
}

/// A block of plain entries is read back from its tokens, from the `{` at `q`: as an object,
/// or as an anonymous object when it stands as a list item.
#[verifier::rlimit(40)]
proof fn lemma_braced_block(ts: Seq<SToken>, q: int, es: Seq<SEntry>, anonymous: bool)
    requires
        plain_scope(seq![], es),
        tokens_at(ts, q, item_tokens(SValue::AnonymousObject(es))),
    ensures
        braced_value(ts, q + 1, anonymous) == Ok::<(SValue, int), Seq<char>>(
            (
                if anonymous {
                    SValue::AnonymousObject(es)
                } else {
                    SValue::Object(es)
                },
                q + item_tokens(SValue::AnonymousObject(es)).len(),
            ),
        ),
    decreases es, 3int,
{
    reveal_with_fuel(skip_newlines, 3);
    let t = item_tokens(SValue::AnonymousObject(es));
    lemma_tokens_at_index(ts, q, t, 0);
    lemma_tokens_at_index(ts, q, t, 1);
    let v = if anonymous {
        SValue::AnonymousObject(es)
    } else {
        SValue::Object(es)
    };
    if es.len() == 0 {
        assert(t =~= seq![SToken::LBrace, SToken::Newline, SToken::RBrace]);
        lemma_tokens_at_index(ts, q, t, 2);
        assert(classify_braced(ts, q + 1) == BraceKind::Object);
        assert(entries_loop(ts, q + 2, true, seq![]) == Ok::<(Seq<SEntry>, int), Seq<char>>(
            (seq![], q + 3),
        ));
        assert(entries_loop(ts, q + 1, true, seq![]) == Ok::<(Seq<SEntry>, int), Seq<char>>(
            (seq![], q + 3),
        ));
        assert(es =~= Seq::<SEntry>::empty());
    } else {
        let c = scope_tokens(es);
        let head = seq![SToken::LBrace, SToken::Newline];
        assert(t =~= head + (c + seq![SToken::Newline, SToken::RBrace]));
        lemma_tokens_at_split(ts, q, head, c + seq![SToken::Newline, SToken::RBrace]);
        lemma_tokens_at_split(ts, q + 2, c, seq![SToken::Newline, SToken::RBrace]);
        let r = q + 2 + c.len();
        lemma_tokens_at_index(ts, r, seq![SToken::Newline, SToken::RBrace], 0);
        lemma_tokens_at_index(ts, r, seq![SToken::Newline, SToken::RBrace], 1);
        lemma_scope_first_token(es);
        lemma_tokens_at_index(ts, q + 2, c, 0);
        lemma_tokens_at_index(ts, q + 2, c, 1);
        assert(classify_braced(ts, q + 1) == BraceKind::Object);
        lemma_entries_loop(ts, q + 2, true, seq![], es);
        assert(Seq::<SEntry>::empty() + es =~= es);
        assert(entries_loop(ts, r + 1, true, es) == Ok::<(Seq<SEntry>, int), Seq<char>>((es, r + 2)));
        assert(entries_loop(ts, r, true, es) == Ok::<(Seq<SEntry>, int), Seq<char>>((es, r + 2)));
        assert(entries_loop(ts, q + 1, true, seq![]) == Ok::<(Seq<SEntry>, int), Seq<char>>(
            (es, r + 2),
        ));
        assert(t.len() == c.len() + 4);
    }
}

/// A plain block value is read back from its tokens (after the key and `=`).
proof fn lemma_block_value(ts: Seq<SToken>, p: int, e: SEntry)
    requires
        e.value is Object,
        plain_value(e.value),
        tokens_at(ts, p, entry_tokens(e)),
    ensures
        braced_value(ts, p + 3, false) == Ok::<(SValue, int), Seq<char>>(
            (e.value, p + entry_tokens(e).len()),
        ),
    decreases e, 0int,
{
    let es = e.value->Object_0;
    let t = entry_tokens(e);
    let b = item_tokens(SValue::AnonymousObject(es));
    assert(t =~= seq![SToken::Ident(e.key), SToken::Equals] + b);
    lemma_tokens_at_split(ts, p, seq![SToken::Ident(e.key), SToken::Equals], b);
    lemma_braced_block(ts, p + 2, es, false);
}

/// A run of word characters opens no quote.
proof fn lemma_quote_scan_plain(s: Seq<char>)
    requires
        forall|i: int| 0 <= i < s.len() ==> is_name_char(#[trigger] s[i]),
    ensures
        quote_scan(start_quote_state(), s) == start_quote_state(),
        !has_unclosed_quote(s),
    decreases s.len(),
{
    if s.len() > 0 {
        let d = s.drop_last();
        assert forall|i: int| 0 <= i < d.len() implies is_name_char(#[trigger] d[i]) by {
            assert(d[i] == s[i]);
        }
        lemma_quote_scan_plain(d);
        assert(is_name_char(s[s.len() - 1]));
        assert(quote_step(start_quote_state(), s.last()) == start_quote_state());
    }
}

/// Scanning plain quoted text from its opening `"` stays inside the quote until the last
/// character.
proof fn lemma_quote_scan_quoted_prefix(w: Seq<char>, i: int)
    requires
        is_plain_quoted(w),
        1 <= i <= w.len() - 1,
    ensures
        quote_scan(start_quote_state(), w.take(i)) == (QuoteState {
            in_ascii: true,
            escaped: false,
            in_curly: false,
        }),
    decreases i,
{
    lemma_quoted_chars(w);
    let inside = QuoteState { in_ascii: true, escaped: false, in_curly: false };
    assert(w.take(i).drop_last() =~= w.take(i - 1));
    assert(w.take(i).last() == w[i - 1]);
    assert(quote_scan(start_quote_state(), w.take(i)) == quote_step(
        quote_scan(start_quote_state(), w.take(i - 1)),
        w[i - 1],
    ));
    if i > 1 {
        lemma_quote_scan_quoted_prefix(w, i - 1);
        assert(w[i - 1] != '\\' && w[i - 1] != '"') by {
            assert(is_quoted_char(w[i - 1]));
        }
        assert(quote_step(inside, w[i - 1]) == inside);
    } else {
        assert(w.take(0) =~= Seq::<char>::empty());
        assert(quote_step(start_quote_state(), '"') == inside);
    }
}

/// Plain quoted text closes the quote it opens.
proof fn lemma_quote_scan_quoted(w: Seq<char>)
    requires
        is_plain_quoted(w),
    ensures
        !has_unclosed_quote(w),
        join_space(seq![w]) == w,
{
    lemma_quote_scan_quoted_prefix(w, w.len() - 1);
    assert(w.drop_last() =~= w.take(w.len() - 1));
    assert(w.last() == '"');
}

/// A plain name, standing alone, opens no quote.
proof fn lemma_plain_word_unquoted(w: Seq<char>)
    requires
        is_plain_word(w),
    ensures
        join_space(seq![w]) == w,
        !has_unclosed_quote(w),
{
    lemma_quote_scan_plain(w);
}

/// Plain items are never merged as parts of a quote.
proof fn lemma_merge_plain(items: Seq<SValue>)
    requires
        plain_items(items),
    ensures
        merge_split_quoted(items) == items,
    decreases items.len(),
{
    if items.len() > 0 {
        let d = items.drop_last();
        lemma_merge_plain(d);
        if d.len() > 0 && d.last() is Scalar {
            assert(d.last() == d[d.len() - 1]);
            lemma_plain_items_index(d, d.len() - 1);
            lemma_item_scalar(d.last()->Scalar_0);
        }
        assert(d.push(items.last()) =~= items);
    }
}

/// The state that reading a list's opening line break and its items leaves: every item
/// finished but a last name, which is the part of the open line.
pub open spec fn list_state(items: Seq<SValue>) -> MultiState {
    match items.last() {
        SValue::Scalar(w) => MultiState { items: items.drop_last(), parts: seq![w] },
        _ => MultiState { items: items, parts: seq![] },
    }
}

proof fn lemma_multi_list(items: Seq<SValue>)
    requires
        items.len() > 0,
        plain_items(items),
    ensures
        multi_fold(seq![SEvent::Newline] + list_events(items)) == list_state(items),
    decreases items.len(),
{
    let v = items.last();
    let evs = seq![SEvent::Newline] + list_events(items);
    lemma_plain_items_index(items, items.len() - 1);
    assert(v == items[items.len() - 1]);
    if items.len() == 1 {
        assert(items[0] == v);
        assert(evs =~= seq![SEvent::Newline, item_event(v)]);
        assert(evs.drop_last() =~= seq![SEvent::Newline]);
        assert(seq![SEvent::Newline].drop_last() =~= Seq::<SEvent>::empty());
        assert(multi_fold(Seq::<SEvent>::empty()) == (MultiState { items: seq![], parts: seq![] }));
        let m1 = multi_fold(seq![SEvent::Newline]);
        assert(m1 == (MultiState { items: seq![], parts: seq![] }));
        assert(evs.last() == item_event(v));
        assert(multi_fold(evs) == multi_step(m1, item_event(v)));
        assert(items.drop_last() =~= Seq::<SValue>::empty());
        match v {
            SValue::Scalar(w) => {
                assert(multi_step(m1, item_event(v)).parts =~= seq![w]);
                assert(multi_step(m1, item_event(v)).items =~= items.drop_last());
            },
            _ => {
                assert(multi_step(m1, item_event(v)).items =~= items);
                assert(multi_step(m1, item_event(v)).parts =~= Seq::<Seq<char>>::empty());
            },
        }
    } else {
        let d = items.drop_last();
        lemma_multi_list(d);
        let pre = seq![SEvent::Newline] + list_events(d);
        assert(evs =~= pre.push(SEvent::Newline).push(item_event(v)));
        assert(evs.drop_last() =~= pre.push(SEvent::Newline));
        assert(pre.push(SEvent::Newline).drop_last() =~= pre);
        let m = multi_fold(pre);
        let m2 = multi_fold(pre.push(SEvent::Newline));
        assert(m2 == multi_step(m, SEvent::Newline));
        assert(d.last() == d[d.len() - 1]);
        lemma_plain_items_index(d, d.len() - 1);
        if d.last() is Scalar {
            let wd = d.last()->Scalar_0;
            lemma_item_scalar(wd);
            assert(d.drop_last().push(SValue::Scalar(wd)) =~= d);
        }
        assert(m2.items =~= d);
        assert(m2.parts =~= Seq::<Seq<char>>::empty());
        assert(multi_fold(evs) == multi_step(m2, item_event(v)));
        match v {
            SValue::Scalar(w) => {
                assert(multi_step(m2, item_event(v)).parts =~= seq![w]);
                assert(multi_step(m2, item_event(v)).items =~= items.drop_last());
            },
            _ => {
                assert(multi_step(m2, item_event(v)).items =~= items);
                assert(multi_step(m2, item_event(v)).parts =~= Seq::<Seq<char>>::empty());
            },
        }
    }
}

/// A plain list item is read from its tokens at `r` as its event.
#[verifier::rlimit(40)]
proof fn lemma_item_loop(ts: Seq<SToken>, r: int, ev: Seq<SEvent>, v: SValue)
    requires
        plain_item(v),
        tokens_at(ts, r, item_tokens(v)),
    ensures
        array_loop(ts, r, ev, true) == array_loop(
            ts,
            r + item_tokens(v).len(),
            ev.push(item_event(v)),
            true,
        ),
    decreases v, 1int,
{
    lemma_tokens_at_index(ts, r, item_tokens(v), 0);
    match v {
        SValue::Scalar(w) => {
            lemma_item_scalar(w);
            assert(word_text(item_tokens(v)[0]) == w);
        },
        SValue::AnonymousObject(es) => {
            lemma_braced_block(ts, r, es, true);
            assert(item_tokens(v).len() >= 3);
            assert(array_item_value(ts, r) == Ok::<(SValue, int), Seq<char>>(
                (v, r + item_tokens(v).len()),
            ));
        },
        _ => {},
    }
}

/// The items of a plain list are collected as its events.
proof fn lemma_list_loop(ts: Seq<SToken>, q: int, ev: Seq<SEvent>, items: Seq<SValue>)
    requires
        items.len() > 0,
        plain_items(items),
        tokens_at(ts, q, list_tokens(items)),
    ensures
        array_loop(ts, q, ev, true) == array_loop(
            ts,
            q + list_tokens(items).len(),
            ev + list_events(items),
            true,
        ),
    decreases items, 0int,
{
    let v = items.last();
    assert(v == items[items.len() - 1]);
    lemma_plain_items_index(items, items.len() - 1);
    if items.len() == 1 {
        assert(items[0] == v);
        lemma_item_loop(ts, q, ev, v);
        assert(ev.push(item_event(v)) =~= ev + list_events(items));
    } else {
        let d = items.drop_last();
        let td = list_tokens(d);
        let tail = seq![SToken::Newline] + item_tokens(v);
        assert(list_tokens(items) =~= td + tail);
        lemma_tokens_at_split(ts, q, td, tail);
        lemma_tokens_at_split(ts, q + td.len(), seq![SToken::Newline], item_tokens(v));
        lemma_tokens_at_index(ts, q + td.len(), seq![SToken::Newline], 0);
        lemma_list_loop(ts, q, ev, d);
        let r = q + td.len();
        let e1 = ev + list_events(d);
        assert(array_loop(ts, r, e1, true) == array_loop(ts, r + 1, e1.push(SEvent::Newline), true));
        lemma_item_loop(ts, r + 1, e1.push(SEvent::Newline), v);
        assert(e1.push(SEvent::Newline).push(item_event(v)) =~= ev + list_events(items));
    }
}

/// The tokens of a plain list start with those of its first item, followed (for two or more
/// items) by a line break and the first token of the second.
proof fn lemma_list_tokens_shape(items: Seq<SValue>)
    requires
        items.len() > 0,
        plain_items(items),
    ensures
        item_tokens(items[0]).len() >= 1,
        list_tokens(items).len() >= item_tokens(items[0]).len(),
        list_tokens(items).subrange(0, item_tokens(items[0]).len() as int) == item_tokens(items[0]),
        items.len() >= 2 ==> list_tokens(items).len() >= item_tokens(items[0]).len() + 2
            && list_tokens(items)[item_tokens(items[0]).len() as int] is Newline
            && list_tokens(items)[item_tokens(items[0]).len() + 1int] == item_tokens(items[1])[0],
    decreases items.len(),
{
    lemma_plain_items_index(items, 0);
    let t0 = item_tokens(items[0]);
    if items.len() == 1 {
        assert(list_tokens(items).subrange(0, t0.len() as int) =~= t0);
    } else {
        let d = items.drop_last();
        lemma_list_tokens_shape(d);
        assert(d[0] == items[0]);
        lemma_plain_items_index(items, items.len() - 1);
        let lt = list_tokens(items);
        let ld = list_tokens(d);
        assert(lt =~= ld + (seq![SToken::Newline] + item_tokens(items.last())));
        assert(item_tokens(items.last()).len() >= 1);
        assert(lt.subrange(0, t0.len() as int) =~= ld.subrange(0, t0.len() as int));
        if items.len() == 2 {
            assert(ld =~= t0);
            assert(items.last() == items[1]);
        } else {
            assert(d[1] == items[1]);
        }
    }
}

/// Plain items written as a list block after a key and `=` are read back as a list, or as
/// the color they spell; `collected` is what reading the items gathers.
#[verifier::rlimit(40)]
proof fn lemma_list_read(ts: Seq<SToken>, p: int, k: Seq<char>, items: Seq<SValue>)
    requires
        items.len() > 0,
        plain_items(items),
        tokens_at(
            ts,
            p,
            seq![SToken::Ident(k), SToken::Equals, SToken::LBrace, SToken::Newline] + list_tokens(
                items,
            ) + seq![SToken::Newline, SToken::RBrace],
        ),
        array_loop(ts, p + 4, seq![SEvent::Newline], true) == array_loop(
            ts,
            p + 4 + list_tokens(items).len(),
            seq![SEvent::Newline] + list_events(items),
            true,
        ),
    ensures
        braced_value(ts, p + 3, false) == Ok::<(SValue, int), Seq<char>>(
            (
                match collapse_color(items) {
                    Some(c) => SValue::Scalar(c),
                    None => SValue::Array(items),
                },
                p + list_tokens(items).len() + 6,
            ),
        ),
{
    reveal_with_fuel(skip_newlines, 3);
    let lt = list_tokens(items);
    let head = seq![SToken::Ident(k), SToken::Equals, SToken::LBrace, SToken::Newline];
    let tail = seq![SToken::Newline, SToken::RBrace];
    let t = head + lt + tail;
    assert(t =~= head + (lt + tail));
    lemma_tokens_at_split(ts, p, head, lt + tail);
    lemma_tokens_at_split(ts, p + 4, lt, tail);
    lemma_tokens_at_index(ts, p, head, 3);
    let q = p + 4 + lt.len();
    lemma_tokens_at_index(ts, q, tail, 0);
    lemma_tokens_at_index(ts, q, tail, 1);
    lemma_list_tokens_shape(items);
    lemma_plain_items_index(items, 0);
    let t0 = item_tokens(items[0]);
    lemma_tokens_at_index(ts, p + 4, lt, 0);
    assert(lt[0] == t0[0]) by {
        assert(lt.subrange(0, t0.len() as int)[0] == lt[0]);
    }
    if items[0] is Scalar {
        assert(t0.len() == 1);
        if items.len() >= 2 {
            lemma_tokens_at_index(ts, p + 4, lt, 1);
            lemma_tokens_at_index(ts, p + 4, lt, 2);
            lemma_plain_items_index(items, 1);
            if items[1] is Scalar {
                lemma_item_scalar(items[1]->Scalar_0);
            }
        } else {
            assert(lt.len() == 1) by {
                assert(lt == t0);
            }
        }
    }
    assert(classify_braced(ts, p + 3) == BraceKind::Array);
    assert(Seq::<SEvent>::empty().push(SEvent::Newline) =~= seq![SEvent::Newline]);
    assert(array_loop(ts, p + 3, seq![], false) == array_loop(ts, p + 4, seq![SEvent::Newline], true));
    let evs = seq![SEvent::Newline] + list_events(items);
    let all = evs.push(SEvent::Newline);
    assert(array_loop(ts, q, evs, true) == array_loop(ts, q + 1, all, true));
    assert(array_loop(ts, q + 1, all, true) == Ok::<(Seq<SValue>, int), Seq<char>>(
        (list_items(all, true), q + 2),
    ));
    lemma_list_items_read(items);
}

/// A plain list value is read back from its tokens (after the key and `=`).
proof fn lemma_list_value(ts: Seq<SToken>, p: int, e: SEntry)
    requires
        e.value is Array,
        plain_value(e.value),
        tokens_at(ts, p, entry_tokens(e)),
    ensures
        braced_value(ts, p + 3, false) == Ok::<(SValue, int), Seq<char>>(
            (e.value, p + entry_tokens(e).len()),
        ),
    decreases e, 0int,
{
    let items = e.value->Array_0;
    let lt = list_tokens(items);
    let head = seq![SToken::Ident(e.key), SToken::Equals, SToken::LBrace, SToken::Newline];
    let tail = seq![SToken::Newline, SToken::RBrace];
    assert(entry_tokens(e) =~= head + lt + tail);
    assert(head + lt + tail =~= head + (lt + tail));
    lemma_tokens_at_split(ts, p, head, lt + tail);
    lemma_tokens_at_split(ts, p + 4, lt, tail);
    lemma_list_loop(ts, p + 4, seq![SEvent::Newline], items);
    lemma_list_read(ts, p, e.key, items);
    assert(collapse_color(items) is None);
}

/// Item scalars of a list are collected as their events.
proof fn lemma_scalar_list_loop(ts: Seq<SToken>, q: int, ev: Seq<SEvent>, items: Seq<SValue>)
    requires
        items.len() > 0,
        forall|i: int| 0 <= i < items.len() ==> (#[trigger] items[i] is Scalar && is_item_word(
            items[i]->Scalar_0,
        )),
        tokens_at(ts, q, list_tokens(items)),
    ensures
        array_loop(ts, q, ev, true) == array_loop(
            ts,
            q + list_tokens(items).len(),
            ev + list_events(items),
            true,
        ),
    decreases items.len(),
{
    let v = items.last();
    assert(v == items[items.len() - 1]);
    let w = v->Scalar_0;
    lemma_item_scalar(w);
    let r = q + list_tokens(items).len() - 1;
    if items.len() == 1 {
        assert(items[0] == v);
        lemma_tokens_at_index(ts, q, list_tokens(items), 0);
        assert(ts[q] == scalar_token(w));
        assert(word_text(ts[q]) == w);
        assert(array_loop(ts, q, ev, true) == array_loop(ts, q + 1, ev.push(SEvent::Scalar(w)), true));
        assert(ev.push(item_event(v)) =~= ev + list_events(items));
    } else {
        let d = items.drop_last();
        assert forall|i: int| 0 <= i < d.len() implies (#[trigger] d[i] is Scalar && is_item_word(
            d[i]->Scalar_0,
        )) by {
            assert(d[i] == items[i]);
        }
        let td = list_tokens(d);
        let tail = seq![SToken::Newline] + item_tokens(v);
        assert(list_tokens(items) =~= td + tail);
        lemma_tokens_at_split(ts, q, td, tail);
        lemma_tokens_at_index(ts, q + td.len(), tail, 0);
        lemma_tokens_at_index(ts, q + td.len(), tail, 1);
        lemma_scalar_list_loop(ts, q, ev, d);
        let e1 = ev + list_events(d);
        let r1 = q + td.len();
        assert(ts[r1] == SToken::Newline);
        assert(ts[r1 + 1] == scalar_token(w));
        assert(word_text(ts[r1 + 1]) == w);
        assert(array_loop(ts, r1, e1, true) == array_loop(ts, r1 + 1, e1.push(SEvent::Newline), true));
        assert(array_loop(ts, r1 + 1, e1.push(SEvent::Newline), true) == array_loop(
            ts,
            r1 + 2,
            e1.push(SEvent::Newline).push(SEvent::Scalar(w)),
            true,
        ));
        assert(e1.push(SEvent::Newline).push(item_event(v)) =~= ev + list_events(items));
    }
}

/// A plain color value is read back from the list block it is written as (after the key and
/// `=`).
#[verifier::rlimit(40)]
proof fn lemma_color_value(ts: Seq<SToken>, p: int, e: SEntry)
    requires
        e.value matches SValue::Scalar(w) && is_plain_color(w),
        tokens_at(ts, p, entry_tokens(e)),
    ensures
        braced_value(ts, p + 3, false) == Ok::<(SValue, int), Seq<char>>(
            (e.value, p + entry_tokens(e).len()),
        ),
{
    let w = e.value->Scalar_0;
    let items = color_items(w);
    lemma_color_items(w, 0);
    lemma_color_tokens(w);
    let lt = list_tokens(items);
    let head = seq![SToken::Ident(e.key), SToken::Equals, SToken::LBrace, SToken::Newline];
    let tail = seq![SToken::Newline, SToken::RBrace];
    assert(entry_tokens(e) =~= head + lt + tail);
    assert(head + lt + tail =~= head + (lt + tail));
    lemma_tokens_at_split(ts, p, head, lt + tail);
    lemma_tokens_at_split(ts, p + 4, lt, tail);
    lemma_scalar_list_loop(ts, p + 4, seq![SEvent::Newline], items);
    lemma_list_read(ts, p, e.key, items);
}

/// The events of plain items between line breaks give back the items.
proof fn lemma_list_items_read(items: Seq<SValue>)
    requires
        items.len() > 0,
        plain_items(items),
    ensures
        list_items((seq![SEvent::Newline] + list_events(items)).push(SEvent::Newline), true)
            == items,
{
    let evs = seq![SEvent::Newline] + list_events(items);
    let all = evs.push(SEvent::Newline);
    lemma_multi_list(items);
    assert(all.drop_last() =~= evs);
    let v = items.last();
    assert(v == items[items.len() - 1]);
    lemma_plain_items_index(items, items.len() - 1);
    if v is Scalar {
        lemma_item_scalar(v->Scalar_0);
        assert(items.drop_last().push(SValue::Scalar(v->Scalar_0)) =~= items);
    }
    assert(multi_fold(all) == (MultiState { items: items, parts: seq![] }));
    assert(multi_line_items(all) == items);
    lemma_merge_plain(items);
}

/// The tokens of a plain entry are read back as the entry, without metadata.
proof fn lemma_parse_entry(ts: Seq<SToken>, p: int, e: SEntry)
    requires
        is_plain_word(e.key),
        plain_value(e.value),
        tokens_at(ts, p, entry_tokens(e)),
        ends_line(ts, p + entry_tokens(e).len()),
    ensures
        parse_entry(ts, p) == Ok::<(SEntry, int), Seq<char>>(
            (SEntry { key: e.key, value: e.value, meta: plain_entry_meta(false) }, p + entry_tokens(e).len()),
        ),
    decreases e, 1int,
{
    reveal_with_fuel(skip_newlines, 2);
    let t = entry_tokens(e);
    let k = e.key;
    lemma_tokens_at_index(ts, p, t, 0);
    lemma_tokens_at_index(ts, p, t, 1);
    lemma_tokens_at_index(ts, p, t, 2);
    assert(expect_key(ts, p) == Ok::<(Seq<char>, int), Seq<char>>((k, p + 1)));
    assert(expect_equals_or_operator(ts, p + 1) == Ok::<(Option<Seq<char>>, int), Seq<char>>(
        (None, p + 2),
    ));
    assert(skip_newlines(ts, p + 2) == p + 2);
    match e.value {
        SValue::Scalar(w) => {
            if is_plain_color(w) {
                lemma_color_value(ts, p, e);
                assert(parse_value(ts, p + 2) == Ok::<(SValue, int), Seq<char>>((e.value, p + t.len())));
            } else {
                assert(t.len() == 3);
                lemma_scalar_value(ts, p, k, w);
            }
        },
        SValue::Object(es) => {
            lemma_block_value(ts, p, e);
            assert(parse_value(ts, p + 2) == Ok::<(SValue, int), Seq<char>>((e.value, p + t.len())));
        },
        SValue::Array(items) => {
            lemma_list_value(ts, p, e);
            assert(parse_value(ts, p + 2) == Ok::<(SValue, int), Seq<char>>((e.value, p + t.len())));
        },
        _ => {},
    }
}

/// The tokens of a non-empty plain scope start with a key and `=`.
proof fn lemma_scope_first_token(es: Seq<SEntry>)
    requires
        es.len() > 0,
    ensures
        scope_tokens(es).len() >= 2,
        scope_tokens(es)[0] == SToken::Ident(es[0].key),
        scope_tokens(es)[1] is Equals,
    decreases es.len(),
{
    if es.len() > 1 {
        let d = es.drop_last();
        lemma_scope_first_token(d);
        assert(d[0] == es[0]);
        let a = scope_tokens(d) + seq![SToken::Newline];
        assert(scope_tokens(es) == a + entry_tokens(es.last()));
        assert(a[0] == scope_tokens(d)[0]);
        assert(a[1] == scope_tokens(d)[1]);
    } else {
        let e = es[0];
        let t = entry_tokens(e);
        let h = seq![SToken::Ident(e.key), SToken::Equals];
        assert(t[0] == h[0]);
        assert(t[1] == h[1]);
    }
}

/// The tokens of plain entries are read back as the entries, each with its rank in the scope.
proof fn lemma_entries_loop(ts: Seq<SToken>, p: int, stop_on_rbrace: bool, acc: Seq<SEntry>, es: Seq<SEntry>)
    requires
        es.len() > 0,
        plain_scope(acc, es),
        tokens_at(ts, p, scope_tokens(es)),
        ends_line(ts, p + scope_tokens(es).len()),
    ensures
        entries_loop(ts, p, stop_on_rbrace, acc) == entries_loop(
            ts,
            p + scope_tokens(es).len(),
            stop_on_rbrace,
            acc + es,
        ),
    decreases es, 2int,
{
    let last = es.last();
    let d = es.drop_last();
    let el = entry_tokens(last);
    assert(last.meta == duplicate_meta(key_count(acc + d, last.key), false));
    let parsed = SEntry { key: last.key, value: last.value, meta: plain_entry_meta(false) };
    if es.len() == 1 {
        assert(es[0] == last);
        assert(d =~= Seq::<SEntry>::empty());
        assert(acc + d =~= acc);
        lemma_parse_entry(ts, p, last);
        lemma_tokens_at_index(ts, p, el, 0);
        assert(with_duplicate_meta(acc, parsed) == last);
        assert(acc.push(last) =~= acc + es);
    } else {
        let td = scope_tokens(d);
        assert(scope_tokens(es) == td + seq![SToken::Newline] + el);
        assert(td + seq![SToken::Newline] + el =~= td + (seq![SToken::Newline] + el));
        lemma_tokens_at_split(ts, p, td, seq![SToken::Newline] + el);
        lemma_tokens_at_split(ts, p + td.len(), seq![SToken::Newline], el);
        lemma_tokens_at_index(ts, p + td.len(), seq![SToken::Newline], 0);
        lemma_entries_loop(ts, p, stop_on_rbrace, acc, d);
        let q = p + td.len() + 1;
        lemma_parse_entry(ts, q, last);
        lemma_tokens_at_index(ts, q, el, 0);
        assert(with_duplicate_meta(acc + d, parsed) == last);
        assert((acc + d).push(last) =~= acc + es);
        assert(entries_loop(ts, q - 1, stop_on_rbrace, acc + d) == entries_loop(
            ts,
            q,
            stop_on_rbrace,
            acc + d,
        ));
    }
}


proof fn lemma_entries_texts_first(es: Seq<SEntry>, n: nat)
    requires
        es.len() > 0,
    ensures
        entries_texts(es, n, false, true)[0] == entry_text(es[0], n, false, true),
    decreases es.len(),
{
    lemma_entries_texts_len(es, n, false, true);
    if es.len() > 1 {
        lemma_entries_texts_first(es.drop_last(), n);
        lemma_entries_texts_len(es.drop_last(), n, false, true);
        assert(es.drop_last()[0] == es[0]);
    }
}

/// Joined parts start with the first part.
proof fn lemma_join_starts(parts: Seq<Seq<char>>, sep: Seq<char>, i: int)
    requires
        parts.len() > 0,
        0 <= i < parts[0].len(),
    ensures
        i < join(parts, sep).len(),
        join(parts, sep)[i] == parts[0][i],
    decreases parts.len(),
{
    if parts.len() > 1 {
        lemma_join_starts(parts.drop_last(), sep, i);
        assert(parts.drop_last()[0] == parts[0]);
    }
}

/// A piece of simple text is simple text.
proof fn lemma_simple_sub(s: Seq<char>, a: int, b: int)
    requires
        is_simple_text(s),
        0 <= a <= b <= s.len(),
    ensures
        is_simple_text(s.subrange(a, b)),
{
    let t = s.subrange(a, b);
    assert forall|m: int| 0 <= m < t.len() implies is_simple_char(#[trigger] t[m]) by {
        assert(t[m] == s[m + a]);
    }
    if contains_seq(t, dashes()) {
        let j = choose|j: int| occurs_at(t, j, dashes());
        lemma_dashes_at(t, j);
        assert(t[j] == s[j + a]);
        assert(t[j + 1] == s[j + 1 + a]);
        lemma_dashes_found(s, j + a);
    }
    assert forall|i: int, j: int|
        #![trigger t[i], t[j]]
        0 <= i < j < t.len() && t[i] == '"' && t[j] == '_' implies exists|m: int|
        i < m < j && t[m] == '\n' by {
        assert(t[i] == s[i + a] && t[j] == s[j + a]);
        let m = choose|m: int| i + a < m < j + a && s[m] == '\n';
        assert(t[m - a] == s[m]);
    }
}

/// No restoring rule finds its pattern in simple text.
proof fn lemma_restore_rules_unmatched(l: Seq<char>)
    requires
        is_simple_text(l),
    ensures
        rewrite(l, restore_rules()) == l,
{
    assert forall|i: int, k: int|
        0 <= k < restore_rules().len() && restore_rules()[k].0.len() > 0 implies !#[trigger] occurs_at(
        l,
        i,
        restore_rules()[k].0,
    ) by {
        let pat = restore_rules()[k].0;
        if occurs_at(l, i, pat) {
            if k <= 4 {
                assert(l.subrange(i, i + pat.len())[2] == l[i + 2]);
                assert(pat[2] == '&');
                assert(is_simple_char(l[i + 2]));
            } else if k <= 8 {
                assert(l.subrange(i, i + pat.len())[0] == l[i]);
                assert(pat[0] == '&' || pat[0] == '%' || pat[0] == '!');
                assert(is_simple_char(l[i]));
            } else {
                assert(pat =~= dashes());
                assert(occurs_at(l, i, dashes()));
            }
        }
    }
    lemma_rewrite_unmatched(l, restore_rules());
}

/// A line of simple text is restored as it stands: nothing to rewrite, and no quoted macro
/// token after its first `=`.
proof fn lemma_restore_line(l: Seq<char>)
    requires
        is_simple_text(l),
        !l.contains('\n'),
    ensures
        spec_unquote_macro_line(rewrite(l, restore_rules())) == l,
{
    lemma_restore_rules_unmatched(l);
    let eq = find_from(l, 0, '=');
    lemma_find_from(l, 0, '=');
    if eq < l.len() {
        let x = l.skip(eq + 1);
        lemma_trim_start_suffix(x);
        let k1 = choose|k: int| 0 <= k <= x.len() && trim_start(x) == x.skip(k);
        let y = trim_start(x);
        lemma_trim_end_prefix(y);
        let k2 = choose|k: int| 0 <= k <= y.len() && trim_end(y) == y.take(k);
        let v = trim(x);
        assert(v == y.take(k2));
        if v.len() >= 2 && v[0] == '"' && v.last() == '"' && spec_is_macro_token(
            v.subrange(1, v.len() - 1),
        ) {
            let inner = v.subrange(1, v.len() - 1);
            let m = choose|m: int| 0 <= m < inner.len() && inner[m] == '_';
            let i0 = eq + 1 + k1;
            let j0 = eq + 1 + k1 + 1 + m;
            assert(v[0] == y[0] && y[0] == x[k1] && x[k1] == l[i0]);
            assert(inner[m] == v[1 + m] && v[1 + m] == y[1 + m] && y[1 + m] == x[k1 + 1 + m]
                && x[k1 + 1 + m] == l[j0]);
            let mm = choose|mm: int| i0 < mm < j0 && l[mm] == '\n';
            assert(l.contains('\n'));
        }
    }
}

/// Each line of simple text that does not end in a line feed is restored as it stands, and
/// the lines joined again give the text back.
proof fn lemma_lines_restored(s: Seq<char>)
    requires
        is_simple_text(s),
        s.len() > 0,
        s.last() != '\n',
    ensures
        join(
            lines(s).map_values(|l: Seq<char>| spec_unquote_macro_line(rewrite(l, restore_rules()))),
            seq!['\n'],
        ) == s,
    decreases s.len(),
{
    let f = |l: Seq<char>| spec_unquote_macro_line(rewrite(l, restore_rules()));
    let j = find_from(s, 0, '\n');
    lemma_find_from(s, 0, '\n');
    if j < s.len() {
        assert(j < s.len() - 1) by {
            if j == s.len() - 1 {
                assert(s.last() == s[j]);
            }
        }
        let x = s.take(j);
        let rest = s.skip(j + 1);
        lemma_simple_sub(s, 0, j);
        assert(s.subrange(0, j) =~= x);
        lemma_simple_sub(s, j + 1, s.len() as int);
        assert(s.subrange(j + 1, s.len() as int) =~= rest);
        assert(!x.contains('\n')) by {
            if x.contains('\n') {
                let m = choose|m: int| 0 <= m < x.len() && x[m] == '\n';
                assert(s[m] == x[m]);
            }
        }
        assert(strip_cr(x) == x) by {
            if x.len() > 0 {
                assert(x.last() == x[x.len() - 1]);
                assert(is_simple_char(x[x.len() - 1]));
            }
        }
        lemma_restore_line(x);
        assert(rest.last() == s.last());
        lemma_lines_restored(rest);
        assert(lines(s) == seq![x] + lines(rest));
        assert(lines(s).map_values(f) =~= seq![f(x)] + lines(rest).map_values(f));
        assert(lines(rest).len() > 0);
        lemma_join_concat(seq![f(x)], lines(rest).map_values(f), seq!['\n']);
        assert(join(seq![f(x)], seq!['\n']) == x);
        assert(lines(rest).map_values(f) =~= lines(rest).map_values(
            |l: Seq<char>| spec_unquote_macro_line(rewrite(l, restore_rules())),
        ));
        assert(x + seq!['\n'] + rest =~= s);
    } else {
        assert(!s.contains('\n'));
        lemma_restore_line(s);
        assert(lines(s) == seq![s]);
        assert(lines(s).map_values(f) =~= seq![f(s)]);
    }
}

/// Restoring simple text that does not end in a line feed gives it back.
proof fn lemma_restore_simple(s: Seq<char>)
    requires
        is_simple_text(s),
        s.len() > 0,
        s.last() != '\n',
    ensures
        spec_restore(s) == s,
{
    lemma_lines_restored(s);
}

/// The first entry of a plain scope has a plain name as its key.
proof fn lemma_plain_scope_first(es: Seq<SEntry>)
    requires
        es.len() > 0,
        plain_scope(seq![], es),
    ensures
        is_plain_word(es[0].key),
    decreases es.len(),
{
    if es.len() > 1 {
        lemma_plain_scope_first(es.drop_last());
        assert(es.drop_last()[0] == es[0]);
    }
}

/// The tokens of `key op= value` (a sign `>`, `<` or `!` followed by `=`) are read as one
/// entry whose value keeps the whole comparison: the sign, `=`, a space and the value.
pub proof fn lemma_parse_keeps_comparison(k: Seq<char>, op: char, v: Seq<char>)
    requires
        is_plain_word(k),
        is_plain_word(v),
        op == '>' || op == '<' || op == '!',
    ensures
        parse_document(
            seq![SToken::Ident(k), SToken::Ident(seq![op]), SToken::Equals, SToken::Ident(v)],
        ) == Ok::<SValue, Seq<char>>(
            SValue::Object(
                seq![
                    SEntry {
                        key: k,
                        value: SValue::Scalar(seq![op, '=', ' '] + v),
                        meta: SMeta { duplicate_index: None, duplicate_suffix: None, nested_quoted: false },
                    },
                ],
            ),
        ),
{
    reveal_with_fuel(skip_newlines, 2);
    let ts = seq![SToken::Ident(k), SToken::Ident(seq![op]), SToken::Equals, SToken::Ident(v)];
    let lead = seq![op, '='];
    lemma_plain_word_read(v);
    assert(is_op_text(seq![op]));
    assert(expect_key(ts, 0) == Ok::<(Seq<char>, int), Seq<char>>((k, 1)));
    assert(seq![op].push('=') =~= lead);
    assert(expect_equals_or_operator(ts, 1) == Ok::<(Option<Seq<char>>, int), Seq<char>>(
        (Some(lead), 3),
    ));
    assert(skip_newlines(ts, 3) == 3);
    assert(!key_value_boundary(ts, 3));
    assert(!implicit_operator_boundary(ts, 3));
    let raw = append_part(lead, true, v);
    assert(raw =~= seq![op, '=', ' '] + v);
    assert(scalar_loop(ts, 4, raw, true, is_op_text(v)) == Ok::<(Seq<char>, int), Seq<char>>((raw, 4)));
    assert(word_text(ts[3]) == v);
    assert(scalar_loop(ts, 3, lead, true, is_op_text(lead)) == Ok::<(Seq<char>, int), Seq<char>>(
        (raw, 4),
    ));
    assert(scalar_sequence(ts, 3, Some(lead)) == Ok::<(Seq<char>, int), Seq<char>>((raw, 4)));
    assert(spec_decode_nested(raw) is None);
    assert(nested_script(k, raw) is None);
    let e = SEntry { key: k, value: SValue::Scalar(raw), meta: plain_entry_meta(false) };
    assert(parse_entry(ts, 0) == Ok::<(SEntry, int), Seq<char>>((e, 4)));
    assert(key_count(Seq::<SEntry>::empty(), k) == 0);
    let e2 = with_duplicate_meta(Seq::<SEntry>::empty(), e);
    assert(entries_loop(ts, 4, false, seq![e2]) == Ok::<(Seq<SEntry>, int), Seq<char>>((seq![e2], 4)));
    assert(entries_loop(ts, 0, false, seq![]) == Ok::<(Seq<SEntry>, int), Seq<char>>((seq![e2], 4)));
}

/// Parsing `key op= value` (a sign `>`, `<` or `!` followed by `=`, as in `size >= 9`) gives
/// one entry whose value keeps the whole comparison: the sign, `=`, a space and the value.
pub proof fn lemma_parse_text_keeps_comparison(k: Seq<char>, op: char, v: Seq<char>)
    requires
        is_plain_word(k),
        is_plain_word(v),
        op == '>' || op == '<' || op == '!',
    ensures
        spec_parse(k + seq![' ', op, '=', ' '] + v) == Ok::<SValue, Seq<char>>(
            SValue::Object(
                seq![
                    SEntry {
                        key: k,
                        value: SValue::Scalar(seq![op, '=', ' '] + v),
                        meta: SMeta { duplicate_index: None, duplicate_suffix: None, nested_quoted: false },
                    },
                ],
            ),
        ),
{
    let s = k + seq![' ', op, '=', ' '] + v;
    let n = k.len() as int;
    let m = s.len() as int;
    assert forall|i: int| 0 <= i < n implies s[i] == k[i] by {}
    assert forall|i: int| n + 4 <= i < m implies s[i] == v[i - n - 4] by {}
    assert(s[n] == ' ' && s[n + 1] == op && s[n + 2] == '=' && s[n + 3] == ' ');
    assert forall|i: int| 0 <= i < n implies !is_word_stop(#[trigger] s[i]) && !splits_comparison(s, 0, i) by {
        assert(is_name_char(k[i]));
    }
    lemma_word_end_run(s, 0, 0, n);
    lemma_word_end_run(s, n + 1, n + 1, n + 2);
    assert forall|i: int| n + 4 <= i < m implies !is_word_stop(#[trigger] s[i]) && !splits_comparison(s, n + 4, i) by {
        assert(is_name_char(v[i - n - 4]));
    }
    lemma_word_end_run(s, n + 4, n + 4, m);
    assert(is_name_char(k[0]) && is_name_char(v[0]));
    let tail = s.subrange(n + 4, m);
    assert(tail =~= v);
    assert(s.subrange(n + 1, n + 2) =~= seq![op]);
    assert(s.subrange(0, n) =~= k);
    assert(tokenize_from(s, m) == Ok::<Seq<SToken>, ()>(Seq::empty()));
    assert(tokenize_from(s, n + 4) == prepend(SToken::Ident(tail), tokenize_from(s, m)));
    assert(tokenize_from(s, n + 4) == Ok::<Seq<SToken>, ()>(seq![SToken::Ident(v)]));
    assert(tokenize_from(s, n + 3) == tokenize_from(s, n + 4));
    assert(tokenize_from(s, n + 2) == prepend(SToken::Equals, tokenize_from(s, n + 3)));
    assert(tokenize_from(s, n + 1) == prepend(SToken::Ident(seq![op]), tokenize_from(s, n + 2)));
    assert(tokenize_from(s, n) == tokenize_from(s, n + 1));
    assert(tokenize_from(s, 0) == prepend(SToken::Ident(k), tokenize_from(s, n)));
    let ts = seq![SToken::Ident(k), SToken::Ident(seq![op]), SToken::Equals, SToken::Ident(v)];
    assert(spec_tokenize(s) == Ok::<Seq<SToken>, ()>(ts)) by {
        assert(seq![SToken::Ident(k)] + (seq![SToken::Ident(seq![op])] + (seq![SToken::Equals] + seq![
            SToken::Ident(v),
        ])) =~= ts);
        assert(seq![SToken::Equals] + seq![SToken::Ident(v)] =~= seq![SToken::Equals, SToken::Ident(v)]);
    }
    assert(!is_blank(s)) by {
        assert(!unicode_whitespace(s[0]));
    }
    lemma_parse_keeps_comparison(k, op, v);
}

/// Generating a plain document and parsing the text gives the document back: for a root of
/// plain entries (keys that are plain names; values that are plain scalars, plain quoted
/// scalars, colors whose components are plain names such as numbers (`rgb { 153 0 51 }`,
/// written as a block of lines and read back as the color), blocks of such entries, or
/// non-empty lists, not reading back as a color, of anonymous blocks and of scalars that are
/// plain or quoted without spaces; each entry recording its rank among the earlier entries
/// of its scope with the same key; none read from a quoted script; no `template_counter`
/// with leading zeros), `generate` writes a text that `parse` reads as the same root,
/// whatever the document's source text.
pub proof fn lemma_generate_then_parse(root: SValue, source: Seq<char>)
    requires
        root matches SValue::Object(es) && es.len() > 0 && plain_scope(seq![], es),
        value_depth(root) < usize::MAX,
    ensures
        spec_generate(root, source) matches Ok(text) && spec_parse(text) == Ok::<SValue, Seq<char>>(root),
{
    let es = root->Object_0;
    let t = entries_texts(es, 0, false, true);
    let text = document_text(root);
    lemma_entries_texts_len(es, 0, false, true);
    assert(with_prefix(t, tabs(0)) =~~= t) by {
        assert(tabs(0) =~= Seq::<char>::empty());
        assert forall|i: int| 0 <= i < t.len() implies with_prefix(t, tabs(0))[i] =~= t[i] by {}
    }
    assert(text == scope_text(es, 0));
    lemma_scope_text_tokens(seq![], es, 0);
    lemma_restore_simple(text);
    assert(spec_restore(text) == text);
    assert(spec_generate(root, source) == Ok::<Seq<char>, ()>(text));
    assert(!is_blank(text)) by {
        let k = es[0].key;
        let i = 0int;
        lemma_plain_scope_first(es);
        assert(is_name_char(k[0]));
        assert(!unicode_whitespace(k[0]));
        lemma_entries_texts_first(es, 0);
        let first = entry_text(es[0], 0, false, true);
        assert(first[i] == k[i]);
        lemma_join_starts(t, lf(), i);
    }
    let ts = scope_tokens(es);
    assert(spec_tokenize(text) == Ok::<Seq<SToken>, ()>(ts));
    assert(ts.subrange(0, ts.len() as int) =~= ts);
    lemma_entries_loop(ts, 0, false, seq![], es);
    assert(Seq::<SEntry>::empty() + es =~= es);
    assert(entries_loop(ts, ts.len() as int, false, es) == Ok::<(Seq<SEntry>, int), Seq<char>>(
        (es, ts.len() as int),
    ));
    assert(parse_document(ts) == Ok::<SValue, Seq<char>>(root));
}

} // verus!

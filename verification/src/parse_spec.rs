//! The model of the parser: what `parse_root` reads out of a token sequence.

use vstd::prelude::*;

use crate::ast::{SEntry, SMeta, SValue};
use crate::compat::{parse_marker_rules, spec_normalize};
use crate::nested::{spec_decode_nested, unescape_quote_rules};
use crate::text::{
    char_count, contains_seq, debug_text, ends_with, join, lemma_match_rule_ok, match_rule, rewrite,
    rewrite_from, starts_with,
};
use crate::tokenizer::{tokenize_rest_after_comment, comment_end, spec_tokenize, string_close, tokenize_from, word_end, SToken};

verus! {

/// The number of `"` characters in `s`.
pub open spec fn quote_count(s: Seq<char>) -> nat
    decreases s.len(),
{
    if s.len() == 0 {
        0
    } else {
        quote_count(s.drop_last()) + if s.last() == '"' {
            1nat
        } else {
            0nat
        }
    }
}

pub open spec fn token_quotes(t: SToken) -> nat {
    match t {
        SToken::Ident(s) => quote_count(s),
        SToken::Str(s) => quote_count(s),
        _ => 0,
    }
}

/// The number of `"` characters in the tokens from `p` on.  Nested scripts are read out of
/// quoted scalars, so this count bounds how deep reading can go.
pub open spec fn quotes_from(ts: Seq<SToken>, p: int) -> nat
    decreases ts.len() - p,
{
    if p < 0 || p >= ts.len() {
        0
    } else {
        token_quotes(ts[p]) + quotes_from(ts, p + 1)
    }
}

/// Fewer tokens hold no more quotes.
pub proof fn lemma_quotes_from_mono(ts: Seq<SToken>, p: int, q: int)
    requires
        0 <= p <= q,
    ensures
        quotes_from(ts, q) <= quotes_from(ts, p),
    decreases q - p,
{
    if p < q {
        lemma_quotes_from_mono(ts, p + 1, q);
    }
}

/// A comparison or assignment sign that may begin a value (`a > 5`, `a ! = b`).
pub open spec fn is_op_text(s: Seq<char>) -> bool {
    s == seq!['>'] || s == seq!['<'] || s == seq!['!'] || s == seq!['=']
}

pub open spec fn is_word(t: SToken) -> bool {
    t is Ident || t is Str
}

pub open spec fn word_text(t: SToken) -> Seq<char> {
    match t {
        SToken::Ident(s) => s,
        SToken::Str(s) => s,
        _ => Seq::empty(),
    }
}

/// The first index at or after `p` that is not a line break.
pub open spec fn skip_newlines(ts: Seq<SToken>, p: int) -> int
    decreases ts.len() - p,
{
    if 0 <= p < ts.len() && ts[p] is Newline {
        skip_newlines(ts, p + 1)
    } else {
        p
    }
}

/// The `Debug` form of a token, as `#[derive(Debug)]` writes it: the variant's name, and
/// for a token that carries text, that text's `Debug` form in round brackets
/// (`Ident("x")`, `Equals`).
pub open spec fn token_debug_text(t: SToken) -> Seq<char> {
    match t {
        SToken::Ident(s) => "Ident("@ + debug_text(s) + ")"@,
        SToken::Str(s) => "StringLiteral("@ + debug_text(s) + ")"@,
        SToken::Equals => "Equals"@,
        SToken::LBrace => "LBrace"@,
        SToken::RBrace => "RBrace"@,
        SToken::Newline => "Newline"@,
    }
}

/// A key: a bare word as it stands, or a quoted word read as a scalar.
pub open spec fn expect_key(ts: Seq<SToken>, p: int) -> Result<(Seq<char>, int), Seq<char>> {
    if 0 <= p < ts.len() {
        match ts[p] {
            SToken::Ident(s) => Ok((s, p + 1)),
            SToken::Str(s) => Ok((spec_normalize(s), p + 1)),
            _ => Err("期望键名，但遇到: "@ + token_debug_text(ts[p])),
        }
    } else {
        Err("期望键名，但输入已结束"@)
    }
}

/// After a key, past line breaks: `=`, or a sign (`>`, `<`, `!`, `=` as a word), with a
/// following `=` joined to it (`>=`); the sign begins the value.
pub open spec fn expect_equals_or_operator(ts: Seq<SToken>, p: int) -> Result<
    (Option<Seq<char>>, int),
    Seq<char>,
> {
    let q = skip_newlines(ts, p);
    if 0 <= q < ts.len() {
        match ts[q] {
            SToken::Equals => Ok((None, q + 1)),
            SToken::Ident(op) => if is_op_text(op) {
                if q + 1 < ts.len() && ts[q + 1] is Equals {
                    Ok((Some(op.push('=')), q + 2))
                } else {
                    Ok((Some(op), q + 1))
                }
            } else {
                Err("期望 '='，但遇到: "@ + token_debug_text(ts[q]))
            },
            _ => Err("期望 '='，但遇到: "@ + token_debug_text(ts[q])),
        }
    } else {
        Err("期望 '='，但输入已结束"@)
    }
}

/// `tok` appended to `out`, after a space if `out` already has a part.
pub open spec fn append_part(out: Seq<char>, has_parts: bool, tok: Seq<char>) -> Seq<char> {
    if has_parts {
        out + seq![' '] + tok
    } else {
        out + tok
    }
}

/// The next word begins a new `key = ...` entry.
pub open spec fn key_value_boundary(ts: Seq<SToken>, p: int) -> bool {
    0 <= p && p + 1 < ts.len() && ts[p] is Ident && ts[p + 1] is Equals
}

/// The next word begins a new `key > ...` entry.
pub open spec fn implicit_operator_boundary(ts: Seq<SToken>, p: int) -> bool {
    0 <= p && p + 1 < ts.len() && ts[p] is Ident && (ts[p + 1] matches SToken::Ident(op)
        && is_op_text(op))
}

/// A `{ ... }` block inside a scalar, as text: its words, signs and braces joined with
/// spaces, line breaks dropped; it must close.
pub open spec fn braced_scalar_loop(
    ts: Seq<SToken>,
    p: int,
    out: Seq<char>,
    has_parts: bool,
    depth: nat,
) -> Result<(Seq<char>, int), Seq<char>>
    decreases ts.len() - p,
{
    if p < 0 || p >= ts.len() {
        Err("标量中的花括号块未闭合，缺少 '}'"@)
    } else {
        match ts[p] {
            SToken::LBrace => braced_scalar_loop(
                ts,
                p + 1,
                append_part(out, has_parts, seq!['{']),
                true,
                depth + 1,
            ),
            SToken::RBrace => if depth == 0 {
                Err("花括号未闭合，缺少 '{'"@)
            } else if depth == 1 {
                Ok((append_part(out, has_parts, seq!['}']), p + 1))
            } else {
                braced_scalar_loop(
                    ts,
                    p + 1,
                    append_part(out, has_parts, seq!['}']),
                    true,
                    (depth - 1) as nat,
                )
            },
            SToken::Ident(s) => braced_scalar_loop(
                ts,
                p + 1,
                append_part(out, has_parts, spec_normalize(s)),
                true,
                depth,
            ),
            SToken::Str(s) => braced_scalar_loop(
                ts,
                p + 1,
                append_part(out, has_parts, spec_normalize(s)),
                true,
                depth,
            ),
            SToken::Equals => braced_scalar_loop(
                ts,
                p + 1,
                append_part(out, has_parts, seq!['=']),
                true,
                depth,
            ),
            SToken::Newline => braced_scalar_loop(ts, p + 1, out, has_parts, depth),
        }
    }
}

pub open spec fn braced_scalar_block(ts: Seq<SToken>, p: int) -> Result<(Seq<char>, int), Seq<char>> {
    braced_scalar_loop(ts, p, Seq::empty(), false, 0)
}

/// A scalar value that runs to the line end or a `}`: its words (read as scalars), signs and
/// inline `{ ... }` blocks joined with spaces; a `=` right after a sign is joined to it; it
/// stops early where the next word begins a new entry.
pub open spec fn scalar_loop(
    ts: Seq<SToken>,
    p: int,
    out: Seq<char>,
    has_parts: bool,
    merge_equals: bool,
) -> Result<(Seq<char>, int), Seq<char>>
    decreases ts.len() - p,
{
    if p < 0 || p >= ts.len() || ts[p] is Newline || ts[p] is RBrace || (is_word(ts[p])
        && has_parts && (key_value_boundary(ts, p) || implicit_operator_boundary(ts, p))) {
        if has_parts {
            Ok((out, p))
        } else {
            Err("值解析失败，缺少标量内容"@)
        }
    } else {
        match ts[p] {
            SToken::Equals => if has_parts && merge_equals {
                scalar_loop(ts, p + 1, out.push('='), has_parts, true)
            } else {
                scalar_loop(ts, p + 1, append_part(out, has_parts, seq!['=']), true, true)
            },
            SToken::LBrace => match braced_scalar_block(ts, p) {
                Ok((b, q)) => if p < q <= ts.len() {
                    scalar_loop(ts, q, append_part(out, has_parts, b), true, false)
                } else {
                    Err("标量中的花括号块未闭合，缺少 '}'"@)
                },
                Err(e) => Err(e),
            },
            _ => {
                let n = spec_normalize(word_text(ts[p]));
                scalar_loop(ts, p + 1, append_part(out, has_parts, n), true, is_op_text(n))
            },
        }
    }
}

pub open spec fn scalar_sequence(ts: Seq<SToken>, p: int, leading: Option<Seq<char>>) -> Result<
    (Seq<char>, int),
    Seq<char>,
> {
    match leading {
        Some(op) => scalar_loop(ts, p, op, true, is_op_text(op)),
        None => scalar_loop(ts, p, Seq::empty(), false, false),
    }
}

/// Whether a quoted scalar is worth reading as a script: its key names a script container,
/// or the scalar looks like one (escaped quotes, a `=`, and braces or a second `=`).
pub open spec fn should_attempt_nested(key: Seq<char>, raw: Seq<char>) -> bool {
    let key_likely = key == seq!['e', 'f', 'f', 'e', 'c', 't'] || key == seq![
        't',
        'r',
        'i',
        'g',
        'g',
        'e',
        'r',
    ] || key == seq!['m', 'o', 'd', 'i', 'f', 'i', 'e', 'r'] || key == seq![
        'd',
        'i',
        'v',
        'i',
        's',
        'i',
        'o',
        'n',
    ] || ends_with(key, seq!['_', 'e', 'f', 'f', 'e', 'c', 't']) || ends_with(
        key,
        seq!['_', 't', 'r', 'i', 'g', 'g', 'e', 'r'],
    ) || ends_with(key, seq!['_', 'm', 'o', 'd', 'i', 'f', 'i', 'e', 'r']);
    let value_likely = starts_with(raw, seq!['"']) && ends_with(raw, seq!['"']) && contains_seq(
        raw,
        seq!['\\', '"'],
    ) && raw.contains('=') && (raw.contains('{') || raw.contains('}') || char_count(raw, '=') >= 2);
    key_likely || value_likely
}

/// How a `{` block is read: as entries, or as a list.
pub enum BraceKind {
    Object,
    Array,
}

/// A block is read as entries when, past line breaks, it is empty, or starts with a word
/// followed (past line breaks) by `=` or a sign; otherwise as a list.
pub open spec fn classify_braced(ts: Seq<SToken>, q: int) -> BraceKind {
    let i = skip_newlines(ts, q);
    if 0 <= i < ts.len() {
        match ts[i] {
            SToken::RBrace => BraceKind::Object,
            SToken::Ident(_) | SToken::Str(_) => {
                let j = skip_newlines(ts, i + 1);
                if 0 <= j < ts.len() && (ts[j] is Equals || (ts[j] matches SToken::Ident(op)
                    && is_op_text(op))) {
                    BraceKind::Object
                } else {
                    BraceKind::Array
                }
            },
            _ => BraceKind::Array,
        }
    } else {
        BraceKind::Array
    }
}

/// What a list block collects: words, `=` signs, nested values, and line breaks.
pub enum SEvent {
    Scalar(Seq<char>),
    Equals,
    Nested(SValue),
    Newline,
}

/// A list on one line: every word, sign and nested value is an item.
pub open spec fn single_line_items(events: Seq<SEvent>) -> Seq<SValue>
    decreases events.len(),
{
    if events.len() == 0 {
        Seq::empty()
    } else {
        let rest = single_line_items(events.drop_last());
        match events.last() {
            SEvent::Scalar(s) => rest.push(SValue::Scalar(s)),
            SEvent::Equals => rest.push(SValue::Scalar(seq!['='])),
            SEvent::Nested(v) => rest.push(v),
            SEvent::Newline => rest,
        }
    }
}

/// The scanning state of an unclosed-quote check: inside an ASCII quote, after a backslash
/// there, inside a curly quote.
pub struct QuoteState {
    pub in_ascii: bool,
    pub escaped: bool,
    pub in_curly: bool,
}

pub open spec fn quote_step(st: QuoteState, ch: char) -> QuoteState {
    if st.in_ascii {
        if st.escaped {
            QuoteState { escaped: false, ..st }
        } else if ch == '\\' {
            QuoteState { escaped: true, ..st }
        } else if ch == '"' {
            QuoteState { in_ascii: false, ..st }
        } else {
            st
        }
    } else if st.in_curly {
        if ch == '\u{201d}' || ch == '\u{2019}' {
            QuoteState { in_curly: false, ..st }
        } else {
            st
        }
    } else if ch == '"' {
        QuoteState { in_ascii: true, ..st }
    } else if ch == '\u{201c}' || ch == '\u{2018}' {
        QuoteState { in_curly: true, ..st }
    } else {
        st
    }
}

pub open spec fn quote_scan(st: QuoteState, s: Seq<char>) -> QuoteState
    decreases s.len(),
{
    if s.len() == 0 {
        st
    } else {
        quote_step(quote_scan(st, s.drop_last()), s.last())
    }
}

pub open spec fn start_quote_state() -> QuoteState {
    QuoteState { in_ascii: false, escaped: false, in_curly: false }
}

/// `s` ends inside an ASCII `"..."` or a curly `“...”` / `‘...’` quote.
pub open spec fn has_unclosed_quote(s: Seq<char>) -> bool {
    let st = quote_scan(start_quote_state(), s);
    st.in_ascii || st.in_curly
}

pub open spec fn join_space(parts: Seq<Seq<char>>) -> Seq<char> {
    join(parts, seq![' '])
}

/// A `=` joins a preceding sign part (`>` becomes `>=`), or is a part of its own.
pub open spec fn merge_equals_part(parts: Seq<Seq<char>>) -> Seq<Seq<char>> {
    if parts.len() > 0 && is_op_text(parts.last()) {
        parts.update(parts.len() - 1, parts.last().push('='))
    } else {
        parts.push(seq!['='])
    }
}

/// The state of reading a list that spans lines: finished items and the parts of the
/// current line.
pub struct MultiState {
    pub items: Seq<SValue>,
    pub parts: Seq<Seq<char>>,
}

pub open spec fn multi_step(st: MultiState, ev: SEvent) -> MultiState {
    match ev {
        SEvent::Newline => if st.parts.len() > 0 && !has_unclosed_quote(join_space(st.parts)) {
            MultiState { items: st.items.push(SValue::Scalar(join_space(st.parts))), parts: seq![] }
        } else {
            st
        },
        SEvent::Scalar(s) => MultiState { parts: st.parts.push(s), ..st },
        SEvent::Equals => MultiState { parts: merge_equals_part(st.parts), ..st },
        SEvent::Nested(v) => if st.parts.len() > 0 {
            MultiState {
                items: st.items.push(SValue::Scalar(join_space(st.parts))).push(v),
                parts: seq![],
            }
        } else {
            MultiState { items: st.items.push(v), ..st }
        },
    }
}

pub open spec fn multi_fold(events: Seq<SEvent>) -> MultiState
    decreases events.len(),
{
    if events.len() == 0 {
        MultiState { items: seq![], parts: seq![] }
    } else {
        multi_step(multi_fold(events.drop_last()), events.last())
    }
}

/// A list over several lines: the parts of each line, joined with spaces, make one item,
/// unless a quote opened on the line is still open; nested values are items of their own.
pub open spec fn multi_line_items(events: Seq<SEvent>) -> Seq<SValue> {
    let st = multi_fold(events);
    if st.parts.len() > 0 {
        st.items.push(SValue::Scalar(join_space(st.parts)))
    } else {
        st.items
    }
}

/// Adjacent scalars are joined (with a space) while the earlier one ends inside a quote.
pub open spec fn merge_split_quoted(items: Seq<SValue>) -> Seq<SValue>
    decreases items.len(),
{
    if items.len() == 0 {
        Seq::empty()
    } else {
        let merged = merge_split_quoted(items.drop_last());
        let item = items.last();
        if item is Scalar && merged.len() > 0 && merged.last() is Scalar && has_unclosed_quote(
            merged.last()->Scalar_0,
        ) {
            merged.update(
                merged.len() - 1,
                SValue::Scalar(merged.last()->Scalar_0 + seq![' '] + item->Scalar_0),
            )
        } else {
            merged.push(item)
        }
    }
}

pub open spec fn list_items(events: Seq<SEvent>, has_newline: bool) -> Seq<SValue> {
    merge_split_quoted(
        if has_newline {
            multi_line_items(events)
        } else {
            single_line_items(events)
        },
    )
}

/// A color keyword.
pub open spec fn is_color_keyword(s: Seq<char>) -> bool {
    s == seq!['r', 'g', 'b'] || s == seq!['H', 'S', 'V'] || s == seq!['h', 's', 'v']
}

pub open spec fn all_plain_scalars(items: Seq<SValue>) -> bool {
    forall|i: int|
        0 <= i < items.len() ==> (#[trigger] items[i] is Scalar && !items[i]->Scalar_0.contains(
            '\n',
        ))
}

pub open spec fn scalar_texts(items: Seq<SValue>) -> Seq<Seq<char>> {
    items.map_values(|v: SValue| v->Scalar_0)
}

/// A list `{ rgb 153 0 51 }` is the color scalar `rgb { 153 0 51 }`.
pub open spec fn collapse_color(items: Seq<SValue>) -> Option<Seq<char>> {
    if items.len() >= 2 && items[0] is Scalar && is_color_keyword(items[0]->Scalar_0)
        && all_plain_scalars(items.skip(1)) {
        Some(
            items[0]->Scalar_0 + seq![' ', '{', ' '] + join_space(scalar_texts(items.skip(1)))
                + seq![' ', '}'],
        )
    } else {
        None
    }
}

/// The metadata of the entry that is the `index`-th earlier one with its key in its scope.
pub open spec fn duplicate_meta(index: nat, nested_quoted: bool) -> SMeta {
    if index > 0 {
        SMeta {
            duplicate_index: Some(index as usize),
            duplicate_suffix: Some(seq!['$', '$'] + hex_upper(index)),
            nested_quoted,
        }
    } else {
        SMeta { duplicate_index: None, duplicate_suffix: None, nested_quoted }
    }
}

pub open spec fn hex_chars() -> Seq<char> {
    seq!['0', '1', '2', '3', '4', '5', '6', '7', '8', '9', 'A', 'B', 'C', 'D', 'E', 'F']
}

/// The upper-case hexadecimal digit of `d < 16`.
pub open spec fn hex_digit(d: nat) -> char {
    hex_chars()[d as int]
}

/// Upper-case hexadecimal digits of `n`, without leading zeros (`0` for zero).
pub open spec fn hex_upper(n: nat) -> Seq<char>
    decreases n,
{
    if n < 16 {
        seq![hex_digit(n)]
    } else {
        hex_upper(n / 16).push(hex_digit(n % 16))
    }
}

/// An upper-case hexadecimal digit: `0`-`9` or `A`-`F`.
pub open spec fn is_upper_hex_digit(c: char) -> bool {
    ('0' <= c && c <= '9') || ('A' <= c && c <= 'F')
}

/// The value of an upper-case hexadecimal digit.
pub open spec fn upper_hex_value(c: char) -> int {
    if '0' <= c && c <= '9' {
        c as int - '0' as int
    } else {
        c as int - 'A' as int + 10
    }
}

/// The number that hexadecimal digits spell, read most significant first.
pub open spec fn hex_number(ds: Seq<char>) -> int
    decreases ds.len(),
{
    if ds.len() == 0 {
        0
    } else {
        hex_number(ds.drop_last()) * 16 + upper_hex_value(ds.last())
    }
}

proof fn lemma_hex_digit_value(d: nat)
    requires
        d < 16,
    ensures
        is_upper_hex_digit(hex_digit(d)),
        upper_hex_value(hex_digit(d)) == d,
{
    let h = hex_chars();
    if d == 0 { assert(h[0] == '0'); } else if d == 1 { assert(h[1] == '1'); }
    else if d == 2 { assert(h[2] == '2'); } else if d == 3 { assert(h[3] == '3'); }
    else if d == 4 { assert(h[4] == '4'); } else if d == 5 { assert(h[5] == '5'); }
    else if d == 6 { assert(h[6] == '6'); } else if d == 7 { assert(h[7] == '7'); }
    else if d == 8 { assert(h[8] == '8'); } else if d == 9 { assert(h[9] == '9'); }
    else if d == 10 { assert(h[10] == 'A'); } else if d == 11 { assert(h[11] == 'B'); }
    else if d == 12 { assert(h[12] == 'C'); } else if d == 13 { assert(h[13] == 'D'); }
    else if d == 14 { assert(h[14] == 'E'); } else { assert(h[15] == 'F'); }
}

/// The hexadecimal numeral of `n` is upper-case digits, most significant first, without
/// leading zeros, and reading it back gives `n`.
pub proof fn lemma_hex_upper_spells(n: nat)
    ensures
        hex_upper(n).len() > 0,
        forall|i: int| 0 <= i < hex_upper(n).len() ==> is_upper_hex_digit(#[trigger] hex_upper(n)[i]),
        hex_number(hex_upper(n)) == n,
        n > 0 ==> hex_upper(n)[0] != '0',
    decreases n,
{
    if n < 16 {
        lemma_hex_digit_value(n);
        let s = hex_upper(n);
        assert(s.drop_last() =~= Seq::<char>::empty());
        assert(hex_number(s) == hex_number(s.drop_last()) * 16 + upper_hex_value(s.last()));
    } else {
        let q = n / 16;
        let r = n % 16;
        vstd::arithmetic::div_mod::lemma_fundamental_div_mod(n as int, 16);
        assert(0 < q < n);
        lemma_hex_upper_spells(q);
        lemma_hex_digit_value(r);
        let s = hex_upper(n);
        assert(s == hex_upper(q).push(hex_digit(r)));
        assert(s.drop_last() =~= hex_upper(q));
        assert forall|i: int| 0 <= i < s.len() implies is_upper_hex_digit(#[trigger] s[i]) by {
            if i < hex_upper(q).len() {
                assert(s[i] == hex_upper(q)[i]);
            }
        }
        assert(s[0] == hex_upper(q)[0]);
    }
}

/// The suffix recorded for an entry with `index` earlier entries of its key is `$$` and the
/// upper-case hexadecimal numeral of `index`, most significant digit first, without leading
/// zeros: its digits read in base 16 give `index` back.
pub proof fn lemma_duplicate_suffix_spells_index(index: nat, nested_quoted: bool)
    requires
        index > 0,
    ensures
        duplicate_meta(index, nested_quoted).duplicate_index == Some(index as usize),
        duplicate_meta(index, nested_quoted).duplicate_suffix matches Some(sfx) && {
            &&& sfx.len() >= 3
            &&& sfx[0] == '$' && sfx[1] == '$'
            &&& sfx[2] != '0'
            &&& forall|i: int| 2 <= i < sfx.len() ==> is_upper_hex_digit(#[trigger] sfx[i])
            &&& hex_number(sfx.skip(2)) == index
        },
{
    lemma_hex_upper_spells(index);
    let sfx = seq!['$', '$'] + hex_upper(index);
    assert(sfx.skip(2) =~= hex_upper(index));
    assert forall|i: int| 2 <= i < sfx.len() implies is_upper_hex_digit(#[trigger] sfx[i]) by {
        assert(sfx[i] == hex_upper(index)[i - 2]);
    }
}

/// How many entries of `acc` have the key `key`.
pub open spec fn key_count(acc: Seq<SEntry>, key: Seq<char>) -> nat
    decreases acc.len(),
{
    if acc.len() == 0 {
        0
    } else {
        key_count(acc.drop_last(), key) + if acc.last().key == key {
            1nat
        } else {
            0nat
        }
    }
}

/// The entry as it stands in its scope: its rank among earlier entries with its key.
pub open spec fn with_duplicate_meta(acc: Seq<SEntry>, e: SEntry) -> SEntry {
    SEntry { meta: duplicate_meta(key_count(acc, e.key), e.meta.nested_quoted), ..e }
}

/// A scalar read as a script when it is a quoted script that tokenizes and parses.
pub open spec fn nested_script(key: Seq<char>, raw: Seq<char>) -> Option<Seq<SToken>> {
    if should_attempt_nested(key, raw) {
        match spec_decode_nested(raw) {
            Some(d) => match spec_tokenize(d) {
                Ok(t2) => Some(t2),
                Err(_) => None,
            },
            None => None,
        }
    } else {
        None
    }
}

/// Entries up to a `}` (when `stop_on_rbrace`) or the end: line breaks are skipped, a stray
/// `}` at the root is ignored, a block left open at the end closes there, and each entry
/// records its rank among the earlier entries of the scope with the same key.
pub open spec fn entries_loop(
    ts: Seq<SToken>,
    p: int,
    stop_on_rbrace: bool,
    acc: Seq<SEntry>,
) -> Result<(Seq<SEntry>, int), Seq<char>>
    decreases quotes_from(ts, p), ts.len() - p, 6int,
{
    if p < 0 || p >= ts.len() {
        Ok((acc, p))
    } else {
        match ts[p] {
            SToken::Newline => entries_loop(ts, p + 1, stop_on_rbrace, acc),
            SToken::RBrace => if stop_on_rbrace {
                Ok((acc, p + 1))
            } else {
                entries_loop(ts, p + 1, stop_on_rbrace, acc)
            },
            SToken::Ident(_) | SToken::Str(_) => match parse_entry(ts, p) {
                Ok((e, q)) => if p < q <= ts.len() {
                    proof {
                        lemma_quotes_from_mono(ts, p, q);
                    }
                    entries_loop(ts, q, stop_on_rbrace, acc.push(with_duplicate_meta(acc, e)))
                } else {
                    Err("不期望的 token: "@ + token_debug_text(ts[p]))
                },
                Err(e) => Err(e),
            },
            _ => Err("不期望的 token: "@ + token_debug_text(ts[p])),
        }
    }
}

/// One entry: a key, `=` or a sign, then a `{` value or a scalar value; a scalar that holds a
/// quoted script is read as that script.
pub open spec fn parse_entry(ts: Seq<SToken>, p: int) -> Result<(SEntry, int), Seq<char>>
    decreases quotes_from(ts, p), ts.len() - p, 5int,
{
    match expect_key(ts, p) {
        Err(e) => Err(e),
        Ok((key, p1)) => match expect_equals_or_operator(ts, p1) {
            Err(e) => Err(e),
            Ok((leading, p2)) => {
                let p3 = skip_newlines(ts, p2);
                if 0 <= p < p3 && p3 < ts.len() && ts[p3] is LBrace {
                    proof {
                        lemma_quotes_from_mono(ts, p, p3);
                    }
                    match parse_value(ts, p3) {
                        Ok((v, p4)) => Ok((SEntry { key, value: v, meta: plain_entry_meta(false) }, p4)),
                        Err(e) => Err(e),
                    }
                } else {
                    match scalar_sequence(ts, p3, leading) {
                        Err(e) => Err(e),
                        Ok((raw, p4)) => match nested_script(key, raw) {
                            Some(t2) => if quotes_from(t2, 0) < quotes_from(ts, p) {
                                match parse_document(t2) {
                                    Ok(v) => Ok(
                                        (SEntry { key, value: v, meta: plain_entry_meta(true) }, p4),
                                    ),
                                    Err(_) => Ok(
                                        (
                                            SEntry {
                                                key,
                                                value: SValue::Scalar(raw),
                                                meta: plain_entry_meta(false),
                                            },
                                            p4,
                                        ),
                                    ),
                                }
                            } else {
                                Err("值解析失败，缺少标量内容"@)
                            },
                            None => Ok(
                                (
                                    SEntry {
                                        key,
                                        value: SValue::Scalar(raw),
                                        meta: plain_entry_meta(false),
                                    },
                                    p4,
                                ),
                            ),
                        },
                    }
                }
            },
        },
    }
}

pub open spec fn plain_entry_meta(nested_quoted: bool) -> SMeta {
    SMeta { duplicate_index: None, duplicate_suffix: None, nested_quoted }
}

/// A value: a word read as a scalar, or a `{` block.
pub open spec fn parse_value(ts: Seq<SToken>, p: int) -> Result<(SValue, int), Seq<char>>
    decreases quotes_from(ts, p), ts.len() - p, 2int,
{
    if 0 <= p < ts.len() {
        match ts[p] {
            SToken::Ident(s) => Ok((SValue::Scalar(spec_normalize(s)), p + 1)),
            SToken::Str(s) => Ok((SValue::Scalar(spec_normalize(s)), p + 1)),
            SToken::LBrace => braced_value(ts, p + 1, false),
            _ => Err("值解析失败，遇到不期望的 token: "@ + token_debug_text(ts[p])),
        }
    } else {
        Err("值解析失败，输入提前结束"@)
    }
}

/// The inside of a `{` block from `q`: entries when it looks like entries and they parse,
/// otherwise a list, which is a color scalar when it is one.  `anonymous` marks an object
/// that stands as a list item.
pub open spec fn braced_value(ts: Seq<SToken>, q: int, anonymous: bool) -> Result<(SValue, int), Seq<char>>
    decreases quotes_from(ts, q), ts.len() - q, 8int,
{
    match classify_braced(ts, q) {
        BraceKind::Object => match entries_loop(ts, q, true, seq![]) {
            Ok((es, q2)) => Ok(
                (
                    if anonymous {
                        SValue::AnonymousObject(es)
                    } else {
                        SValue::Object(es)
                    },
                    q2,
                ),
            ),
            Err(_) => array_value(ts, q),
        },
        BraceKind::Array => array_value(ts, q),
    }
}

pub open spec fn array_value(ts: Seq<SToken>, q: int) -> Result<(SValue, int), Seq<char>>
    decreases quotes_from(ts, q), ts.len() - q, 7int,
{
    match array_loop(ts, q, seq![], false) {
        Ok((items, q2)) => Ok(
            (
                match collapse_color(items) {
                    Some(c) => SValue::Scalar(c),
                    None => SValue::Array(items),
                },
                q2,
            ),
        ),
        Err(e) => Err(e),
    }
}

/// The items of a list block up to its `}` (or the end, where it closes).
pub open spec fn array_loop(ts: Seq<SToken>, p: int, events: Seq<SEvent>, has_newline: bool) -> Result<
    (Seq<SValue>, int),
    Seq<char>,
>
    decreases quotes_from(ts, p), ts.len() - p, 6int,
{
    if p < 0 || p >= ts.len() {
        Ok((list_items(events, has_newline), p))
    } else {
        match ts[p] {
            SToken::Newline => array_loop(ts, p + 1, events.push(SEvent::Newline), true),
            SToken::RBrace => Ok((list_items(events, has_newline), p + 1)),
            SToken::LBrace => match array_item_value(ts, p) {
                Ok((v, q)) => if p < q <= ts.len() {
                    proof {
                        lemma_quotes_from_mono(ts, p, q);
                    }
                    array_loop(ts, q, events.push(SEvent::Nested(v)), has_newline)
                } else {
                    Err("不期望的 token: "@ + token_debug_text(ts[p]))
                },
                Err(e) => Err(e),
            },
            SToken::Equals => array_loop(ts, p + 1, events.push(SEvent::Equals), has_newline),
            _ => array_loop(
                ts,
                p + 1,
                events.push(SEvent::Scalar(spec_normalize(word_text(ts[p])))),
                has_newline,
            ),
        }
    }
}

/// An item of a list block: a `{` block (an anonymous object, when it is one), or a value.
pub open spec fn array_item_value(ts: Seq<SToken>, p: int) -> Result<(SValue, int), Seq<char>>
    decreases quotes_from(ts, p), ts.len() - p, 5int,
{
    if 0 <= p < ts.len() && ts[p] is LBrace {
        braced_value(ts, p + 1, true)
    } else {
        parse_value(ts, p)
    }
}

/// The document: the entries of the token sequence, read to its end.
pub open spec fn parse_document(ts: Seq<SToken>) -> Result<SValue, Seq<char>>
    decreases quotes_from(ts, 0), ts.len(), 9int,
{
    match entries_loop(ts, 0, false, seq![]) {
        Ok((es, _)) => Ok(SValue::Object(es)),
        Err(e) => Err(e),
    }
}

} // verus!

verus! {

pub proof fn lemma_quote_count_add(a: Seq<char>, b: Seq<char>)
    ensures
        quote_count(a + b) == quote_count(a) + quote_count(b),
    decreases b.len(),
{
    if b.len() == 0 {
        assert(a + b =~= a);
    } else {
        lemma_quote_count_add(a, b.drop_last());
        assert((a + b).drop_last() =~= a + b.drop_last());
    }
}

pub proof fn lemma_quote_count_split(s: Seq<char>, i: int, j: int)
    requires
        0 <= i <= j <= s.len(),
    ensures
        quote_count(s.skip(i)) == quote_count(s.subrange(i, j)) + quote_count(s.skip(j)),
{
    assert(s.skip(i) =~= s.subrange(i, j) + s.skip(j));
    lemma_quote_count_add(s.subrange(i, j), s.skip(j));
}

pub proof fn lemma_append_part_quotes(out: Seq<char>, has: bool, tok: Seq<char>)
    ensures
        quote_count(append_part(out, has, tok)) == quote_count(out) + quote_count(tok),
{
    if has {
        lemma_quote_count_add(out + seq![' '], tok);
        lemma_quote_count_add(out, seq![' ']);
        assert(quote_count(seq![' ']) == 0) by {
            reveal_with_fuel(quote_count, 2);
            assert(seq![' '].drop_last() =~= Seq::<char>::empty());
        }
    } else {
        lemma_quote_count_add(out, tok);
    }
}

/// Rewriting with rules whose patterns and replacements hold as many quotes keeps the
/// number of quotes.
pub proof fn lemma_rewrite_quotes(s: Seq<char>, i: int, rules: Seq<(Seq<char>, Seq<char>)>)
    requires
        0 <= i <= s.len(),
        forall|k: int| 0 <= k < rules.len() ==> quote_count(#[trigger] rules[k].0) == quote_count(
            rules[k].1,
        ),
    ensures
        quote_count(rewrite_from(s, i, rules)) == quote_count(s.skip(i)),
    decreases s.len() - i,
{
    if i == s.len() {
        assert(s.skip(i) =~= Seq::<char>::empty());
    } else {
        lemma_match_rule_ok(s, i, rules, 0);
        match match_rule(s, i, rules, 0) {
            Some(k) => {
                let plen = rules[k].0.len() as int;
                lemma_rewrite_quotes(s, i + plen, rules);
                lemma_quote_count_add(rules[k].1, rewrite_from(s, i + plen, rules));
                lemma_quote_count_split(s, i, i + plen);
            },
            None => {
                lemma_rewrite_quotes(s, i + 1, rules);
                lemma_quote_count_add(seq![s[i]], rewrite_from(s, i + 1, rules));
                lemma_quote_count_split(s, i, i + 1);
                assert(s.subrange(i, i + 1) =~= seq![s[i]]);
            },
        }
    }
}

pub proof fn lemma_normalize_quotes(s: Seq<char>)
    ensures
        quote_count(spec_normalize(s)) == quote_count(s),
{
    let rules = parse_marker_rules();
    reveal_with_fuel(quote_count, 8);
    assert forall|k: int| 0 <= k < rules.len() implies quote_count(#[trigger] rules[k].0)
        == quote_count(rules[k].1) by {
        assert(quote_count(rules[k].0) == 0);
        assert(quote_count(rules[k].1) == 0);
    }
    lemma_rewrite_quotes(s, 0, rules);
    assert(s.skip(0) =~= s);
    let d = rewrite(s, rules);
    if d.len() > 1 && d.last() == ',' {
        assert(quote_count(d) == quote_count(d.drop_last()));
    }
}

/// A sign that begins a value holds no quotes.
pub proof fn lemma_operator_quotes(ts: Seq<SToken>, p: int)
    ensures
        expect_equals_or_operator(ts, p) matches Ok((Some(op), _)) ==> quote_count(op) == 0,
{
    reveal_with_fuel(quote_count, 3);
}

pub proof fn lemma_braced_quotes(ts: Seq<SToken>, p: int, out: Seq<char>, has: bool, depth: nat)
    requires
        0 <= p,
    ensures
        braced_scalar_loop(ts, p, out, has, depth) matches Ok((r, q)) ==> quote_count(r)
            + quotes_from(ts, q) <= quote_count(out) + quotes_from(ts, p),
    decreases ts.len() - p,
{
    if p < ts.len() {
        reveal_with_fuel(quote_count, 2);
        match ts[p] {
            SToken::LBrace => {
                lemma_append_part_quotes(out, has, seq!['{']);
                lemma_braced_quotes(ts, p + 1, append_part(out, has, seq!['{']), true, depth + 1);
            },
            SToken::RBrace => {
                lemma_append_part_quotes(out, has, seq!['}']);
                if depth > 1 {
                    lemma_braced_quotes(
                        ts,
                        p + 1,
                        append_part(out, has, seq!['}']),
                        true,
                        (depth - 1) as nat,
                    );
                }
            },
            SToken::Ident(s) => {
                lemma_normalize_quotes(s);
                lemma_append_part_quotes(out, has, spec_normalize(s));
                lemma_braced_quotes(ts, p + 1, append_part(out, has, spec_normalize(s)), true, depth);
            },
            SToken::Str(s) => {
                lemma_normalize_quotes(s);
                lemma_append_part_quotes(out, has, spec_normalize(s));
                lemma_braced_quotes(ts, p + 1, append_part(out, has, spec_normalize(s)), true, depth);
            },
            SToken::Equals => {
                lemma_append_part_quotes(out, has, seq!['=']);
                lemma_braced_quotes(ts, p + 1, append_part(out, has, seq!['=']), true, depth);
            },
            SToken::Newline => {
                lemma_braced_quotes(ts, p + 1, out, has, depth);
            },
        }
    }
}

pub proof fn lemma_scalar_loop_quotes(ts: Seq<SToken>, p: int, out: Seq<char>, has: bool, merge: bool)
    requires
        0 <= p,
    ensures
        scalar_loop(ts, p, out, has, merge) matches Ok((r, q)) ==> quote_count(r) + quotes_from(
            ts,
            q,
        ) <= quote_count(out) + quotes_from(ts, p),
    decreases ts.len() - p,
{
    if p < ts.len() && !(ts[p] is Newline || ts[p] is RBrace || (is_word(ts[p]) && has && (
    key_value_boundary(ts, p) || implicit_operator_boundary(ts, p)))) {
        reveal_with_fuel(quote_count, 2);
        match ts[p] {
            SToken::Equals => {
                if has && merge {
                    lemma_quote_count_add(out, seq!['=']);
                    assert(out.push('=') =~= out + seq!['=']);
                    lemma_scalar_loop_quotes(ts, p + 1, out.push('='), has, true);
                } else {
                    lemma_append_part_quotes(out, has, seq!['=']);
                    lemma_scalar_loop_quotes(ts, p + 1, append_part(out, has, seq!['=']), true, true);
                }
            },
            SToken::LBrace => {
                lemma_braced_quotes(ts, p, Seq::empty(), false, 0);
                match braced_scalar_block(ts, p) {
                    Ok((b, q)) => {
                        if p < q <= ts.len() {
                            lemma_append_part_quotes(out, has, b);
                            lemma_scalar_loop_quotes(ts, q, append_part(out, has, b), true, false);
                        }
                    },
                    Err(_) => {},
                }
            },
            _ => {
                let n = spec_normalize(word_text(ts[p]));
                lemma_normalize_quotes(word_text(ts[p]));
                lemma_append_part_quotes(out, has, n);
                lemma_scalar_loop_quotes(ts, p + 1, append_part(out, has, n), true, is_op_text(n));
            },
        }
    }
}

pub proof fn lemma_scalar_sequence_quotes(ts: Seq<SToken>, p: int, lead: Option<Seq<char>>)
    requires
        0 <= p,
        lead matches Some(op) ==> quote_count(op) == 0,
    ensures
        scalar_sequence(ts, p, lead) matches Ok((r, q)) ==> quote_count(r) <= quotes_from(ts, p),
{
    match lead {
        Some(op) => lemma_scalar_loop_quotes(ts, p, op, true, is_op_text(op)),
        None => lemma_scalar_loop_quotes(ts, p, Seq::empty(), false, false),
    }
}

/// A decoded quoted script has its outer quotes removed and no quote added.
pub proof fn lemma_decode_quotes(raw: Seq<char>)
    ensures
        spec_decode_nested(raw) matches Some(d) ==> quote_count(d) + 2 == quote_count(raw),
{
    if raw.len() >= 2 && raw[0] == '"' && raw.last() == '"' {
        let inner = raw.subrange(1, raw.len() - 1);
        let rules = unescape_quote_rules();
        reveal_with_fuel(quote_count, 3);
        assert forall|k: int| 0 <= k < rules.len() implies quote_count(#[trigger] rules[k].0)
            == quote_count(rules[k].1) by {
            assert(seq!['\\', '"'].drop_last() =~= seq!['\\']);
        }
        lemma_rewrite_quotes(inner, 0, rules);
        assert(inner.skip(0) =~= inner);
        assert(raw =~= seq![raw[0]] + inner + seq![raw.last()]);
        lemma_quote_count_add(seq![raw[0]] + inner, seq![raw.last()]);
        lemma_quote_count_add(seq![raw[0]], inner);
    }
}

pub proof fn lemma_quotes_from_prepend(t: SToken, rest: Seq<SToken>, k: int)
    requires
        0 <= k,
    ensures
        quotes_from(seq![t] + rest, k + 1) == quotes_from(rest, k),
    decreases rest.len() - k,
{
    if k < rest.len() {
        lemma_quotes_from_prepend(t, rest, k + 1);
        assert((seq![t] + rest)[k + 1] == rest[k]);
    }
}

/// The tokens of a text hold no more quotes than the text.
pub proof fn lemma_tokenize_quotes(s: Seq<char>, i: int)
    requires
        0 <= i <= s.len(),
    ensures
        tokenize_from(s, i) matches Ok(t) ==> quotes_from(t, 0) <= quote_count(s.skip(i)),
    decreases s.len() - i, 1int,
{
    if i < s.len() {
        let c = s[i];
        lemma_quote_count_split(s, i, i + 1);
        if c == '\u{feff}' || c == '\r' || c == ' ' || c == '\t' {
            lemma_tokenize_quotes(s, i + 1);
        } else if c == '\n' || c == '=' || c == '{' || c == '}' {
            lemma_tokenize_quotes(s, i + 1);
            match tokenize_from(s, i + 1) {
                Ok(rest) => {
                    let t = if c == '\n' {
                        SToken::Newline
                    } else if c == '=' {
                        SToken::Equals
                    } else if c == '{' {
                        SToken::LBrace
                    } else {
                        SToken::RBrace
                    };
                    lemma_quotes_from_prepend(t, rest, 0);
                },
                Err(_) => {},
            }
        } else if c == '#' {
            let j = comment_end(s, i + 1);
            assert(tokenize_from(s, i) == tokenize_rest_after_comment(s, i));
            if i < j <= s.len() {
                lemma_tokenize_quotes(s, j);
                lemma_quote_count_split(s, i, j);
            }
        } else if c == '"' {
            match string_close(s, i + 1, false) {
                Some(j) => {
                    if i < j <= s.len() {
                        lemma_tokenize_quotes(s, j);
                        lemma_quote_count_split(s, i, j);
                        match tokenize_from(s, j) {
                            Ok(rest) => lemma_quotes_from_prepend(SToken::Str(s.subrange(i, j)), rest, 0),
                            Err(_) => {},
                        }
                    }
                },
                None => {},
            }
        } else {
            let j = word_end(s, i, i);
            if i < j <= s.len() {
                lemma_tokenize_quotes(s, j);
                lemma_quote_count_split(s, i, j);
                match tokenize_from(s, j) {
                    Ok(rest) => lemma_quotes_from_prepend(SToken::Ident(s.subrange(i, j)), rest, 0),
                    Err(_) => {},
                }
            } else {
                lemma_tokenize_quotes(s, i + 1);
            }
        }
    }
}


/// Each entry of a scope records its rank among the earlier entries with the same key.
pub open spec fn ranks_recorded(es: Seq<SEntry>) -> bool {
    forall|i: int|
        0 <= i < es.len() ==> (#[trigger] es[i]).meta == duplicate_meta(
            key_count(es.take(i), es[i].key),
            es[i].meta.nested_quoted,
        )
}

proof fn lemma_entries_loop_ranks(ts: Seq<SToken>, p: int, stop_on_rbrace: bool, acc: Seq<SEntry>)
    requires
        ranks_recorded(acc),
    ensures
        entries_loop(ts, p, stop_on_rbrace, acc) matches Ok((es, _)) ==> ranks_recorded(es),
    decreases quotes_from(ts, p), ts.len() - p,
{
    if 0 <= p < ts.len() {
        match ts[p] {
            SToken::Newline => lemma_entries_loop_ranks(ts, p + 1, stop_on_rbrace, acc),
            SToken::RBrace => if !stop_on_rbrace {
                lemma_entries_loop_ranks(ts, p + 1, stop_on_rbrace, acc);
            },
            SToken::Ident(_) | SToken::Str(_) => match parse_entry(ts, p) {
                Ok((e, q)) => if p < q <= ts.len() {
                    lemma_quotes_from_mono(ts, p, q);
                    let next = acc.push(with_duplicate_meta(acc, e));
                    assert forall|i: int| 0 <= i < next.len() implies (#[trigger] next[i]).meta
                        == duplicate_meta(key_count(next.take(i), next[i].key), next[i].meta.nested_quoted) by {
                        if i < acc.len() {
                            assert(next.take(i) =~= acc.take(i));
                        } else {
                            assert(next.take(i) =~= acc);
                        }
                    }
                    lemma_entries_loop_ranks(ts, q, stop_on_rbrace, next);
                },
                Err(_) => {},
            },
            _ => {},
        }
    }
}

/// Every scope that reading produces (the root, and each `{ ... }` block read as entries)
/// records for each entry its rank among the earlier entries of the same scope with the same
/// key: no rank for a first occurrence, the rank and its `$$HEX` suffix for a repeat.
pub proof fn lemma_scope_ranks(ts: Seq<SToken>, p: int, stop_on_rbrace: bool)
    ensures
        entries_loop(ts, p, stop_on_rbrace, seq![]) matches Ok((es, _)) ==> ranks_recorded(es),
        parse_document(ts) matches Ok(SValue::Object(es)) ==> ranks_recorded(es),
{
    lemma_entries_loop_ranks(ts, p, stop_on_rbrace, seq![]);
    lemma_entries_loop_ranks(ts, 0, false, seq![]);
}

/// Every scope of a value, at any depth, records each entry's rank among the earlier entries
/// of that scope with the same key.
pub open spec fn ranked_deep(v: SValue) -> bool
    decreases v,
{
    match v {
        SValue::Scalar(_) => true,
        SValue::Array(items) => forall|i: int| 0 <= i < items.len() ==> ranked_deep(#[trigger] items[i]),
        SValue::Object(es) => ranks_recorded(es) && forall|i: int|
            0 <= i < es.len() ==> ranked_deep(#[trigger] es[i].value),
        SValue::AnonymousObject(es) => ranks_recorded(es) && forall|i: int|
            0 <= i < es.len() ==> ranked_deep(#[trigger] es[i].value),
    }
}

/// The nested values among the events are ranked at every depth.
pub open spec fn events_ranked(events: Seq<SEvent>) -> bool {
    forall|j: int| 0 <= j < events.len() ==> (#[trigger] events[j] matches SEvent::Nested(v) ==> ranked_deep(v))
}

pub open spec fn values_ranked(items: Seq<SValue>) -> bool {
    forall|k: int| 0 <= k < items.len() ==> ranked_deep(#[trigger] items[k])
}

proof fn lemma_events_prefix(events: Seq<SEvent>)
    requires
        events.len() > 0,
        events_ranked(events),
    ensures
        events_ranked(events.drop_last()),
{
    assert forall|j: int| 0 <= j < events.drop_last().len() implies (#[trigger] events.drop_last()[j] matches SEvent::Nested(v) ==> ranked_deep(v)) by {
        assert(events.drop_last()[j] == events[j]);
    }
}

proof fn lemma_values_push(items: Seq<SValue>, v: SValue)
    requires
        values_ranked(items),
        ranked_deep(v),
    ensures
        values_ranked(items.push(v)),
{
    assert forall|k: int| 0 <= k < items.push(v).len() implies ranked_deep(#[trigger] items.push(v)[k]) by {
        if k < items.len() {
            assert(items.push(v)[k] == items[k]);
        }
    }
}

proof fn lemma_single_line_ranked(events: Seq<SEvent>)
    requires
        events_ranked(events),
    ensures
        values_ranked(single_line_items(events)),
    decreases events.len(),
{
    if events.len() > 0 {
        lemma_events_prefix(events);
        lemma_single_line_ranked(events.drop_last());
        let rest = single_line_items(events.drop_last());
        assert(events.last() == events[events.len() - 1]);
        match events.last() {
            SEvent::Scalar(t) => lemma_values_push(rest, SValue::Scalar(t)),
            SEvent::Equals => lemma_values_push(rest, SValue::Scalar(seq!['='])),
            SEvent::Nested(v) => lemma_values_push(rest, v),
            SEvent::Newline => {},
        }
    }
}

proof fn lemma_multi_fold_ranked(events: Seq<SEvent>)
    requires
        events_ranked(events),
    ensures
        values_ranked(multi_fold(events).items),
    decreases events.len(),
{
    if events.len() > 0 {
        lemma_events_prefix(events);
        lemma_multi_fold_ranked(events.drop_last());
        let st = multi_fold(events.drop_last());
        assert(events.last() == events[events.len() - 1]);
        match events.last() {
            SEvent::Newline => if st.parts.len() > 0 && !has_unclosed_quote(join_space(st.parts)) {
                lemma_values_push(st.items, SValue::Scalar(join_space(st.parts)));
            },
            SEvent::Nested(v) => if st.parts.len() > 0 {
                lemma_values_push(st.items, SValue::Scalar(join_space(st.parts)));
                lemma_values_push(st.items.push(SValue::Scalar(join_space(st.parts))), v);
            } else {
                lemma_values_push(st.items, v);
            },
            _ => {},
        }
    }
}

proof fn lemma_merge_ranked(items: Seq<SValue>)
    requires
        values_ranked(items),
    ensures
        values_ranked(merge_split_quoted(items)),
    decreases items.len(),
{
    if items.len() > 0 {
        let d = items.drop_last();
        assert forall|k: int| 0 <= k < d.len() implies ranked_deep(#[trigger] d[k]) by {
            assert(d[k] == items[k]);
        }
        lemma_merge_ranked(d);
        let merged = merge_split_quoted(d);
        let item = items.last();
        assert(item == items[items.len() - 1]);
        if item is Scalar && merged.len() > 0 && merged.last() is Scalar && has_unclosed_quote(
            merged.last()->Scalar_0,
        ) {
            let x = SValue::Scalar(merged.last()->Scalar_0 + seq![' '] + item->Scalar_0);
            let u = merged.update(merged.len() - 1, x);
            assert forall|k: int| 0 <= k < u.len() implies ranked_deep(#[trigger] u[k]) by {
                if k < merged.len() - 1 {
                    assert(u[k] == merged[k]);
                }
            }
        } else {
            lemma_values_push(merged, item);
        }
    }
}

proof fn lemma_list_items_ranked(events: Seq<SEvent>, has_newline: bool)
    requires
        events_ranked(events),
    ensures
        values_ranked(list_items(events, has_newline)),
{
    if has_newline {
        lemma_multi_fold_ranked(events);
        let st = multi_fold(events);
        if st.parts.len() > 0 {
            lemma_values_push(st.items, SValue::Scalar(join_space(st.parts)));
        }
        lemma_merge_ranked(multi_line_items(events));
    } else {
        lemma_single_line_ranked(events);
        lemma_merge_ranked(single_line_items(events));
    }
}

proof fn lemma_entries_deep(ts: Seq<SToken>, p: int, stop_on_rbrace: bool, acc: Seq<SEntry>)
    requires
        ranks_recorded(acc),
        forall|i: int| 0 <= i < acc.len() ==> ranked_deep(#[trigger] acc[i].value),
    ensures
        entries_loop(ts, p, stop_on_rbrace, acc) matches Ok((es, _)) ==> ranks_recorded(es) && forall|i: int|
            0 <= i < es.len() ==> ranked_deep(#[trigger] es[i].value),
    decreases quotes_from(ts, p), ts.len() - p, 6int,
{
    lemma_entries_loop_ranks(ts, p, stop_on_rbrace, acc);
    if 0 <= p < ts.len() {
        match ts[p] {
            SToken::Newline => lemma_entries_deep(ts, p + 1, stop_on_rbrace, acc),
            SToken::RBrace => if !stop_on_rbrace {
                lemma_entries_deep(ts, p + 1, stop_on_rbrace, acc);
            },
            SToken::Ident(_) | SToken::Str(_) => {
                lemma_entry_deep(ts, p);
                match parse_entry(ts, p) {
                    Ok((e, q)) => if p < q <= ts.len() {
                        lemma_quotes_from_mono(ts, p, q);
                        let next = acc.push(with_duplicate_meta(acc, e));
                        lemma_entries_loop_ranks(ts, p, stop_on_rbrace, acc);
                        assert forall|i: int| 0 <= i < next.len() implies (#[trigger] next[i]).meta
                            == duplicate_meta(key_count(next.take(i), next[i].key), next[i].meta.nested_quoted) by {
                            if i < acc.len() {
                                assert(next.take(i) =~= acc.take(i));
                            } else {
                                assert(next.take(i) =~= acc);
                            }
                        }
                        assert forall|i: int| 0 <= i < next.len() implies ranked_deep(#[trigger] next[i].value) by {
                            if i < acc.len() {
                                assert(next[i] == acc[i]);
                            }
                        }
                        lemma_entries_deep(ts, q, stop_on_rbrace, next);
                    },
                    Err(_) => {},
                }
            },
            _ => {},
        }
    }
}

proof fn lemma_entry_deep(ts: Seq<SToken>, p: int)
    ensures
        parse_entry(ts, p) matches Ok((e, _)) ==> ranked_deep(e.value),
    decreases quotes_from(ts, p), ts.len() - p, 5int,
{
    match expect_key(ts, p) {
        Err(_) => {},
        Ok((key, p1)) => match expect_equals_or_operator(ts, p1) {
            Err(_) => {},
            Ok((leading, p2)) => {
                let p3 = skip_newlines(ts, p2);
                if 0 <= p < p3 && p3 < ts.len() && ts[p3] is LBrace {
                    lemma_quotes_from_mono(ts, p, p3);
                    lemma_value_deep(ts, p3);
                } else {
                    match scalar_sequence(ts, p3, leading) {
                        Err(_) => {},
                        Ok((raw, p4)) => match nested_script(key, raw) {
                            Some(t2) => if quotes_from(t2, 0) < quotes_from(ts, p) {
                                lemma_document_deep(t2);
                            },
                            None => {},
                        },
                    }
                }
            },
        },
    }
}

proof fn lemma_value_deep(ts: Seq<SToken>, p: int)
    ensures
        parse_value(ts, p) matches Ok((v, _)) ==> ranked_deep(v),
    decreases quotes_from(ts, p), ts.len() - p, 2int,
{
    if 0 <= p < ts.len() && ts[p] is LBrace {
        lemma_quotes_from_mono(ts, p, p + 1);
        lemma_braced_deep(ts, p + 1, false);
    }
}

proof fn lemma_braced_deep(ts: Seq<SToken>, q: int, anonymous: bool)
    ensures
        braced_value(ts, q, anonymous) matches Ok((v, _)) ==> ranked_deep(v),
    decreases quotes_from(ts, q), ts.len() - q, 8int,
{
    lemma_entries_deep(ts, q, true, seq![]);
    lemma_array_value_deep(ts, q);
}

proof fn lemma_array_value_deep(ts: Seq<SToken>, q: int)
    ensures
        array_value(ts, q) matches Ok((v, _)) ==> ranked_deep(v),
    decreases quotes_from(ts, q), ts.len() - q, 7int,
{
    lemma_array_loop_deep(ts, q, seq![], false);
}

proof fn lemma_array_loop_deep(ts: Seq<SToken>, p: int, events: Seq<SEvent>, has_newline: bool)
    requires
        events_ranked(events),
    ensures
        array_loop(ts, p, events, has_newline) matches Ok((items, _)) ==> values_ranked(items),
    decreases quotes_from(ts, p), ts.len() - p, 6int,
{
    if p < 0 || p >= ts.len() {
        lemma_list_items_ranked(events, has_newline);
    } else {
        match ts[p] {
            SToken::Newline => {
                lemma_events_push(events, SEvent::Newline);
                lemma_array_loop_deep(ts, p + 1, events.push(SEvent::Newline), true);
            },
            SToken::RBrace => lemma_list_items_ranked(events, has_newline),
            SToken::LBrace => {
                lemma_item_deep(ts, p);
                match array_item_value(ts, p) {
                    Ok((v, q)) => if p < q <= ts.len() {
                        lemma_quotes_from_mono(ts, p, q);
                        lemma_events_push(events, SEvent::Nested(v));
                        lemma_array_loop_deep(ts, q, events.push(SEvent::Nested(v)), has_newline);
                    },
                    Err(_) => {},
                }
            },
            SToken::Equals => {
                lemma_events_push(events, SEvent::Equals);
                lemma_array_loop_deep(ts, p + 1, events.push(SEvent::Equals), has_newline);
            },
            _ => {
                let ev = SEvent::Scalar(spec_normalize(word_text(ts[p])));
                lemma_events_push(events, ev);
                lemma_array_loop_deep(ts, p + 1, events.push(ev), has_newline);
            },
        }
    }
}

proof fn lemma_events_push(events: Seq<SEvent>, ev: SEvent)
    requires
        events_ranked(events),
        ev matches SEvent::Nested(v) ==> ranked_deep(v),
    ensures
        events_ranked(events.push(ev)),
{
    assert forall|j: int| 0 <= j < events.push(ev).len() implies (#[trigger] events.push(ev)[j] matches SEvent::Nested(v) ==> ranked_deep(v)) by {
        if j < events.len() {
            assert(events.push(ev)[j] == events[j]);
        }
    }
}

proof fn lemma_item_deep(ts: Seq<SToken>, p: int)
    ensures
        array_item_value(ts, p) matches Ok((v, _)) ==> ranked_deep(v),
    decreases quotes_from(ts, p), ts.len() - p, 5int,
{
    if 0 <= p < ts.len() && ts[p] is LBrace {
        lemma_quotes_from_mono(ts, p, p + 1);
        lemma_braced_deep(ts, p + 1, true);
    } else {
        lemma_value_deep(ts, p);
    }
}

proof fn lemma_document_deep(ts: Seq<SToken>)
    ensures
        parse_document(ts) matches Ok(v) ==> ranked_deep(v),
    decreases quotes_from(ts, 0), ts.len(), 9int,
{
    lemma_entries_deep(ts, 0, false, seq![]);
}

/// Reading records duplicate ranks in every scope at every depth: in each object and
/// anonymous object of the document, nested blocks, list items and values read from quoted
/// scripts included, each entry carries its rank among the earlier entries of that same scope
/// with its key (counts never pass from one scope to another).
pub proof fn lemma_ranks_at_every_depth(ts: Seq<SToken>)
    ensures
        parse_document(ts) matches Ok(v) ==> ranked_deep(v),
{
    lemma_document_deep(ts);
}

} // verus!

//! The model of the generator: the text written back for a value.

use vstd::prelude::*;

use crate::ast::{SEntry, SValue};
use crate::compat::spec_escape;
use crate::nested::{spec_decode_nested, spec_encode_nested};
use crate::parse_spec::join_space;
use crate::text::{
    contains_seq, ends_with, find_from, is_ascii_digit, join, starts_with, trim, trim_end,
    trim_end_char, trim_start, trim_start_char, unicode_alphanumeric, unicode_whitespace,
};
use crate::tokenizer::{spec_tokenize, SToken};

verus! {

/// `n` tab characters.
pub open spec fn tabs(n: nat) -> Seq<char> {
    Seq::new(n, |i: int| '\t')
}

pub open spec fn has_whitespace(s: Seq<char>) -> bool {
    exists|i: int| 0 <= i < s.len() && unicode_whitespace(#[trigger] s[i])
}

pub open spec fn all_ascii_digits(s: Seq<char>) -> bool {
    forall|i: int| 0 <= i < s.len() ==> is_ascii_digit(#[trigger] s[i])
}

pub open spec fn quoted_at_either_end(s: Seq<char>) -> bool {
    (s.len() > 0 && s[0] == '"') || (s.len() > 0 && s.last() == '"')
}

/// A plain decimal (`[+-]digits.digits`) with trailing zeros in its fraction, written without
/// them (and without the point when nothing is left of the fraction); `None` when the text is
/// no such decimal or has nothing to trim.
pub open spec fn trim_plain_decimal(raw: Seq<char>) -> Option<Seq<char>> {
    if raw.len() == 0 || quoted_at_either_end(raw) || has_whitespace(raw) {
        None
    } else {
        let sign_len: int = if raw[0] == '+' || raw[0] == '-' {
            1
        } else {
            0
        };
        let body = raw.skip(sign_len);
        let d = find_from(body, 0, '.');
        if d >= body.len() {
            None
        } else {
            let integer = body.take(d);
            let fractional = body.skip(d + 1);
            if integer.len() == 0 || fractional.len() == 0 || fractional.contains('.')
                || !all_ascii_digits(integer) || !all_ascii_digits(fractional) {
                None
            } else {
                let trimmed = trim_end_char(fractional, '0');
                if trimmed.len() == fractional.len() {
                    None
                } else {
                    Some(
                        raw.take(sign_len) + integer + if trimmed.len() > 0 {
                            seq!['.'] + trimmed
                        } else {
                            Seq::empty()
                        },
                    )
                }
            }
        }
    }
}

/// The comparison sign that starts `raw`, longest first.
pub open spec fn leading_operator_len(raw: Seq<char>) -> int {
    if starts_with(raw, seq!['>', '=']) || starts_with(raw, seq!['<', '=']) || starts_with(
        raw,
        seq!['!', '='],
    ) {
        2
    } else if starts_with(raw, seq!['>']) || starts_with(raw, seq!['<']) || starts_with(
        raw,
        seq!['='],
    ) {
        1
    } else {
        0
    }
}

/// A sign followed by one plain decimal (`< 0.50`), with the decimal trimmed and the spacing
/// kept; `None` otherwise.
pub open spec fn trim_operator_numeric(raw: Seq<char>) -> Option<Seq<char>> {
    let op_len = leading_operator_len(raw);
    if raw.len() == 0 || quoted_at_either_end(raw) || op_len == 0 {
        None
    } else {
        let rest = raw.skip(op_len);
        let ts = trim_start(rest);
        let lead_ws = rest.take(rest.len() - ts.len());
        let te = trim_end(ts);
        let trail_ws = ts.skip(te.len() as int);
        if te.len() == 0 || has_whitespace(te) {
            None
        } else {
            match trim_plain_decimal(te) {
                Some(n) => Some(raw.take(op_len) + lead_ws + n + trail_ws),
                None => None,
            }
        }
    }
}

/// A numeric scalar with trailing zeros trimmed.
pub open spec fn trim_numeric(raw: Seq<char>) -> Option<Seq<char>> {
    match trim_plain_decimal(raw) {
        Some(d) => Some(d),
        None => trim_operator_numeric(raw),
    }
}

pub open spec fn template_counter_key() -> Seq<char> {
    seq!['t', 'e', 'm', 'p', 'l', 'a', 't', 'e', '_', 'c', 'o', 'u', 'n', 't', 'e', 'r']
}

/// The value of a `template_counter` entry without leading zeros; `None` when nothing
/// changes.
pub open spec fn trim_template_counter(key: Seq<char>, raw: Seq<char>) -> Option<Seq<char>> {
    if key != template_counter_key() || raw.len() == 0 || quoted_at_either_end(raw)
        || has_whitespace(raw) || !all_ascii_digits(raw) || raw == seq!['0'] {
        None
    } else {
        let t = trim_start_char(raw, '0');
        if t.len() == 0 {
            Some(seq!['0'])
        } else if t.len() == raw.len() {
            None
        } else {
            Some(t)
        }
    }
}

/// The scalar as written, when numeric trimming is on and changes it.
pub open spec fn render_scalar(raw: Seq<char>, trim_numbers: bool) -> Option<Seq<char>> {
    if !trim_numbers {
        None
    } else {
        trim_numeric(raw)
    }
}

pub open spec fn or_raw(o: Option<Seq<char>>, raw: Seq<char>) -> Seq<char> {
    match o {
        Some(t) => t,
        None => raw,
    }
}

/// The scalar of an entry as written: a template counter trimmed, otherwise a number trimmed.
pub open spec fn render_entry_scalar(key: Seq<char>, raw: Seq<char>, trim_numbers: bool) -> Seq<char> {
    match trim_template_counter(key, raw) {
        Some(t) => t,
        None => or_raw(render_scalar(raw, trim_numbers), raw),
    }
}

/// A quoted scalar with an underscore and no space or slash loses its quotes.
pub open spec fn normalize_quoted_like_java(raw: Seq<char>) -> Seq<char> {
    if raw.len() >= 2 && raw[0] == '"' && raw.last() == '"' && raw.contains('_') && !raw.contains(
        ' ',
    ) && !raw.contains('/') {
        raw.subrange(1, raw.len() - 1)
    } else {
        raw
    }
}

/// The text of a token as it is rewritten: words as they stand, signs and braces as
/// themselves, line breaks dropped.
pub open spec fn token_part(t: SToken) -> Option<Seq<char>> {
    match t {
        SToken::Ident(s) => Some(s),
        SToken::Str(s) => Some(s),
        SToken::Equals => Some(seq!['=']),
        SToken::LBrace => Some(seq!['{']),
        SToken::RBrace => Some(seq!['}']),
        SToken::Newline => None,
    }
}

/// The texts of the tokens that have one.
pub open spec fn token_parts(ts: Seq<SToken>) -> Seq<Seq<char>>
    decreases ts.len(),
{
    if ts.len() == 0 {
        Seq::empty()
    } else {
        match token_part(ts.last()) {
            Some(p) => token_parts(ts.drop_last()).push(p),
            None => token_parts(ts.drop_last()),
        }
    }
}

/// A quoted script is rewritten on one line with its tokens spaced by one space.
pub open spec fn canonicalize_quoted_script(raw: Seq<char>) -> Seq<char> {
    if !(raw.len() > 0 && raw[0] == '"' && raw.last() == '"' && contains_seq(raw, seq!['\\', '"'])
        && raw.contains('=')) {
        raw
    } else {
        match spec_decode_nested(raw) {
            None => raw,
            Some(d) => match spec_tokenize(d) {
                Err(_) => raw,
                Ok(ts) => if token_parts(ts).len() == 0 {
                    raw
                } else {
                    spec_encode_nested(join_space(token_parts(ts)))
                },
            },
        }
    }
}

/// The state of splitting at whitespace: the finished words and the word being read.
pub struct WordState {
    pub words: Seq<Seq<char>>,
    pub current: Seq<char>,
}

pub open spec fn flush_word(st: WordState) -> WordState {
    if st.current.len() > 0 {
        WordState { words: st.words.push(st.current), current: seq![] }
    } else {
        st
    }
}

pub open spec fn word_step(st: WordState, c: char) -> WordState {
    if unicode_whitespace(c) {
        flush_word(st)
    } else {
        WordState { current: st.current.push(c), ..st }
    }
}

pub open spec fn word_fold(s: Seq<char>) -> WordState
    decreases s.len(),
{
    if s.len() == 0 {
        WordState { words: seq![], current: seq![] }
    } else {
        word_step(word_fold(s.drop_last()), s.last())
    }
}

/// The parts of `s` separated by Unicode whitespace (std's `split_whitespace`).
pub open spec fn split_ws(s: Seq<char>) -> Seq<Seq<char>> {
    flush_word(word_fold(s)).words
}

pub open spec fn color_keywords() -> Seq<Seq<char>> {
    seq![seq!['r', 'g', 'b'], seq!['H', 'S', 'V'], seq!['h', 's', 'v']]
}

/// The keyword of a color scalar `kw { ... }`, and what stands between its braces.
pub open spec fn color_parts(text: Seq<char>) -> Option<(Seq<char>, Seq<char>)> {
    if color_with(text, 0) is Some {
        color_with(text, 0)
    } else if color_with(text, 1) is Some {
        color_with(text, 1)
    } else {
        color_with(text, 2)
    }
}

pub open spec fn color_with(text: Seq<char>, k: int) -> Option<(Seq<char>, Seq<char>)> {
    let kw = color_keywords()[k];
    let prefix = kw + seq![' ', '{', ' '];
    if starts_with(text, prefix) && ends_with(text.skip(prefix.len() as int), seq![' ', '}']) {
        Some((kw, text.subrange(prefix.len() as int, text.len() - 2)))
    } else {
        None
    }
}

/// A color scalar written as a block body: the keyword, then each component, one per line.
pub open spec fn color_body(text: Seq<char>, indent: nat) -> Option<Seq<char>> {
    match color_parts(text) {
        None => None,
        Some((kw, inner)) => if trim(inner).len() == 0 {
            None
        } else {
            Some(tabs(indent) + kw + prefixed_lines(split_ws(inner), tabs(indent)))
        },
    }
}

/// Each part on a line of its own after a line feed and `prefix`.
pub open spec fn prefixed_lines(parts: Seq<Seq<char>>, prefix: Seq<char>) -> Seq<char>
    decreases parts.len(),
{
    if parts.len() == 0 {
        Seq::empty()
    } else {
        prefixed_lines(parts.drop_last(), prefix) + seq!['\n'] + prefix + parts.last()
    }
}

/// A character that may stand in a bare identifier.
pub open spec fn is_ident_char(c: char) -> bool {
    unicode_alphanumeric(c) || c == '_' || c == '-' || c == '.' || c == ':' || c == '\''
        || c == '\u{2019}'
}

pub open spec fn is_simple_identifier(t: Seq<char>) -> bool {
    t.len() > 0 && forall|i: int| 0 <= i < t.len() ==> is_ident_char(#[trigger] t[i])
}

pub open spec fn is_quoted_token(t: Seq<char>) -> bool {
    t.len() >= 2 && ((t[0] == '"' && t.last() == '"') || (t[0] == '\u{201c}' && t.last()
        == '\u{201d}') || (t[0] == '\u{2018}' && t.last() == '\u{2019}'))
}

pub open spec fn is_list_token(t: Seq<char>) -> bool {
    t == seq![','] || is_simple_identifier(t) || is_quoted_token(t)
}

/// The state of splitting a list scalar: the finished tokens, the current token, whether it
/// is inside a quote (`Some(true)` for ASCII, `Some(false)` for curly), and whether a
/// backslash escapes the next character.
pub struct SplitState {
    pub tokens: Seq<Seq<char>>,
    pub current: Seq<char>,
    pub in_quote: Option<bool>,
    pub escaped: bool,
}

pub open spec fn flush_current(st: SplitState) -> SplitState {
    if st.current.len() > 0 {
        SplitState { tokens: st.tokens.push(st.current), current: seq![], ..st }
    } else {
        st
    }
}

pub open spec fn split_step(st: SplitState, ch: char) -> SplitState {
    match st.in_quote {
        Some(ascii) => {
            let cur = st.current.push(ch);
            if ascii {
                if st.escaped {
                    SplitState { current: cur, escaped: false, ..st }
                } else if ch == '\\' {
                    SplitState { current: cur, escaped: true, ..st }
                } else if ch == '"' {
                    SplitState { current: cur, in_quote: None, ..st }
                } else {
                    SplitState { current: cur, ..st }
                }
            } else if ch == '\u{201d}' || ch == '\u{2019}' {
                SplitState { current: cur, in_quote: None, ..st }
            } else {
                SplitState { current: cur, ..st }
            }
        },
        None => if unicode_whitespace(ch) {
            flush_current(st)
        } else if ch == ',' {
            let f = flush_current(st);
            SplitState { tokens: f.tokens.push(seq![',']), ..f }
        } else if ch == '"' {
            SplitState { current: st.current.push(ch), in_quote: Some(true), ..st }
        } else if ch == '\u{201c}' || ch == '\u{2018}' {
            SplitState { current: st.current.push(ch), in_quote: Some(false), ..st }
        } else {
            SplitState { current: st.current.push(ch), ..st }
        },
    }
}

pub open spec fn split_fold(s: Seq<char>) -> SplitState
    decreases s.len(),
{
    if s.len() == 0 {
        SplitState { tokens: seq![], current: seq![], in_quote: None, escaped: false }
    } else {
        split_step(split_fold(s.drop_last()), s.last())
    }
}

/// A list scalar split at whitespace and commas (each comma a token of its own), quoted
/// phrases kept whole; `None` when a quote is left open.
pub open spec fn split_tokens_preserving_quotes(s: Seq<char>) -> Option<Seq<Seq<char>>> {
    let st = split_fold(s);
    if st.in_quote is Some {
        None
    } else {
        Some(flush_current(st).tokens)
    }
}

pub open spec fn all_list_tokens(ts: Seq<Seq<char>>) -> bool {
    forall|i: int| 0 <= i < ts.len() ==> is_list_token(#[trigger] ts[i])
}

/// A scalar that is a list of names written one per line after `prefix`.
pub open spec fn split_list_item(item: SValue, prefix: Seq<char>) -> Option<Seq<char>> {
    match item {
        SValue::Scalar(text) => if !text.contains(' ') {
            None
        } else {
            match split_tokens_preserving_quotes(text) {
                None => None,
                Some(ts) => if ts.len() < 2 || !all_list_tokens(ts) {
                    None
                } else {
                    Some(join(ts.map_values(|t: Seq<char>| prefix + t), seq!['\n']))
                },
            }
        },
        _ => None,
    }
}


pub open spec fn is_composite(v: SValue) -> bool {
    !(v is Scalar)
}

/// The text of a scalar item (empty for other items).
pub open spec fn scalar_of(v: SValue) -> Seq<char> {
    match v {
        SValue::Scalar(t) => t,
        _ => Seq::empty(),
    }
}

/// A comparison sign standing alone.
pub open spec fn is_comparison_text(t: Seq<char>) -> bool {
    t == seq!['>'] || t == seq!['<'] || t == seq!['>', '='] || t == seq!['<', '='] || t == seq![
        '=',
        '=',
    ] || t == seq!['!', '=']
}

/// A list that forms one comparison expression: at least three scalars, none with a space,
/// not all plain names, one of them a comparison sign.
pub open spec fn single_expression_array(items: Seq<SValue>) -> bool {
    &&& items.len() >= 3
    &&& !(forall|i: int|
        0 <= i < items.len() ==> #[trigger] items[i] is Scalar && is_simple_identifier(
            scalar_of(items[i]),
        ))
    &&& forall|i: int|
        0 <= i < items.len() ==> #[trigger] items[i] is Scalar && !scalar_of(items[i]).contains(' ')
    &&& exists|i: int| 0 <= i < items.len() && is_comparison_text(scalar_of(#[trigger] items[i]))
}

/// The words of a single-expression list, numbers trimmed, nothing escaped.
pub open spec fn expression_parts(items: Seq<SValue>, trim_numbers: bool) -> Seq<Seq<char>> {
    items.map_values(
        |v: SValue| or_raw(render_scalar(scalar_of(v), trim_numbers), scalar_of(v)),
    )
}

/// `name = { ... }` split over the three items `name`, `=`, and a block.
pub open spec fn then_equals_at(items: Seq<SValue>, i: int) -> bool {
    &&& 0 <= i && i + 2 < items.len()
    &&& items[i] is Scalar && trim(scalar_of(items[i])).len() > 0
    &&& items[i + 1] is Scalar && trim(scalar_of(items[i + 1])) == seq!['=']
    &&& is_composite(items[i + 2])
}

/// A name followed by a sign glued to a name or number (`threat`, `>0.24`).
pub open spec fn attached_at(items: Seq<SValue>, i: int) -> bool {
    &&& 0 <= i && i + 1 < items.len()
    &&& items[i] is Scalar && scalar_of(items[i]).len() > 0
    &&& items[i + 1] is Scalar
    &&& scalar_of(items[i + 1]).len() > 0
    &&& (scalar_of(items[i + 1])[0] == '<' || scalar_of(items[i + 1])[0] == '>')
    &&& is_simple_identifier(scalar_of(items[i + 1]).skip(1))
}

/// The line written for an attached comparison: `name op value`, spaced.
pub open spec fn attached_line(items: Seq<SValue>, i: int, prefix: Seq<char>, trim_numbers: bool) -> Seq<char> {
    let right = scalar_of(items[i + 1]);
    let tail = right.skip(1);
    prefix + scalar_of(items[i]) + seq![' ', right[0], ' '] + or_raw(
        render_scalar(tail, trim_numbers),
        tail,
    )
}

/// `name =` as one item followed by a block.
pub open spec fn equals_at(items: Seq<SValue>, i: int) -> bool {
    &&& 0 <= i && i + 1 < items.len()
    &&& items[i] is Scalar
    &&& ends_with(trim_end(scalar_of(items[i])), seq!['='])
    &&& is_composite(items[i + 1])
}

/// The name before the trailing `=` signs.
pub open spec fn equals_prefix(p: Seq<char>) -> Seq<char> {
    trim(trim_end_char(trim_end(p), '='))
}

/// A block added to the lines of output: nothing when it is empty.
pub open spec fn block_chunk(b: Seq<char>) -> Seq<Seq<char>> {
    if b.len() == 0 {
        seq![]
    } else {
        seq![b]
    }
}

/// Each text after `prefix`.
pub open spec fn with_prefix(ts: Seq<Seq<char>>, prefix: Seq<char>) -> Seq<Seq<char>> {
    ts.map_values(|t: Seq<char>| prefix + t)
}

pub open spec fn lf() -> Seq<char> {
    seq!['\n']
}

pub open spec fn sp() -> Seq<char> {
    seq![' ']
}

/// `key = value`.
pub open spec fn key_value(key: Seq<char>, value: Seq<char>) -> Seq<char> {
    key + seq![' ', '=', ' '] + value
}

/// `key = {`, the body on lines of its own, and `}` at the entry's indentation.
pub open spec fn keyed_block(key: Seq<char>, body: Seq<char>, indent: nat) -> Seq<char> {
    if body.len() == 0 {
        key + seq![' ', '=', ' ', '{', '\n'] + tabs(indent) + seq!['}']
    } else {
        key + seq![' ', '=', ' ', '{', '\n'] + body + seq!['\n'] + tabs(indent) + seq!['}']
    }
}

/// A value that an entry writes as a block over several lines (when it may).
pub open spec fn is_multiline_value(v: SValue) -> bool {
    match v {
        SValue::Scalar(t) => color_body(t, 0) is Some,
        _ => true,
    }
}

/// How deeply blocks nest inside a value.
pub open spec fn value_depth(v: SValue) -> nat
    decreases v,
{
    match v {
        SValue::Scalar(_) => 0,
        SValue::Array(items) => 1 + values_depth(items),
        SValue::Object(es) => 1 + entries_depth(es),
        SValue::AnonymousObject(es) => 1 + entries_depth(es),
    }
}

pub open spec fn values_depth(items: Seq<SValue>) -> nat
    decreases items,
{
    if items.len() == 0 {
        0
    } else {
        let a = values_depth(items.drop_last());
        let b = value_depth(items.last());
        if a >= b {
            a
        } else {
            b
        }
    }
}

pub open spec fn entries_depth(es: Seq<SEntry>) -> nat
    decreases es,
{
    if es.len() == 0 {
        0
    } else {
        let a = entries_depth(es.drop_last());
        let b = value_depth(es.last().value);
        if a >= b {
            a
        } else {
            b
        }
    }
}

/// A list's depth is within a bound exactly when each item's is.
pub proof fn lemma_values_depth_bound(s: Seq<SValue>, l: nat)
    ensures
        (values_depth(s) <= l) == (forall|i: int| 0 <= i < s.len() ==> value_depth(#[trigger] s[i]) <= l),
    decreases s.len(),
{
    if s.len() > 0 {
        let t = s.drop_last();
        lemma_values_depth_bound(t, l);
        if values_depth(s) <= l {
            assert forall|i: int| 0 <= i < s.len() implies value_depth(#[trigger] s[i]) <= l by {
                if i < s.len() - 1 {
                    assert(t[i] == s[i]);
                }
            }
        } else if values_depth(t) > l {
            let i = choose|i: int| 0 <= i < t.len() && !(value_depth(#[trigger] t[i]) <= l);
            assert(t[i] == s[i]);
        } else {
            assert(value_depth(s[s.len() - 1]) > l);
        }
    }
}

/// An object's depth is within a bound exactly when each entry value's is.
pub proof fn lemma_entries_depth_bound(es: Seq<SEntry>, l: nat)
    ensures
        (entries_depth(es) <= l) == (forall|i: int| 0 <= i < es.len() ==> value_depth(#[trigger] es[i].value) <= l),
    decreases es.len(),
{
    if es.len() > 0 {
        let t = es.drop_last();
        lemma_entries_depth_bound(t, l);
        if entries_depth(es) <= l {
            assert forall|i: int| 0 <= i < es.len() implies value_depth(#[trigger] es[i].value) <= l by {
                if i < es.len() - 1 {
                    assert(t[i] == es[i]);
                }
            }
        } else if entries_depth(t) > l {
            let i = choose|i: int| 0 <= i < t.len() && !(value_depth(#[trigger] t[i].value) <= l);
            assert(t[i] == es[i]);
        } else {
            assert(value_depth(es[es.len() - 1].value) > l);
        }
    }
}

/// The text of a value: a scalar escaped (numbers trimmed when asked), a list as
/// `{ a b c }`, an object as its entries (see `object_text`).
pub open spec fn value_text(v: SValue, indent: nat, inline: bool, trim_numbers: bool) -> Seq<char>
    decreases v, 0int,
{
    match v {
        SValue::Scalar(s) => spec_escape(or_raw(render_scalar(s, trim_numbers), s)),
        SValue::Array(items) => seq!['{', ' '] + join(values_inline(items, indent, trim_numbers), sp())
            + seq![' ', '}'],
        SValue::Object(es) => object_text(es, indent, inline, trim_numbers),
        SValue::AnonymousObject(es) => object_text(es, indent, inline, trim_numbers),
    }
}

/// The texts of list items written on one line.
pub open spec fn values_inline(items: Seq<SValue>, indent: nat, trim_numbers: bool) -> Seq<Seq<char>>
    decreases items, 0int,
{
    if items.len() == 0 {
        Seq::empty()
    } else {
        values_inline(items.drop_last(), indent, trim_numbers).push(
            value_text(items.last(), indent, true, trim_numbers),
        )
    }
}

/// The entries of an object: `{}` when there are none; `{ a = 1 b = 2 }` on one line; or
/// one entry per line after `indent` tabs.
pub open spec fn object_text(es: Seq<SEntry>, indent: nat, inline: bool, trim_numbers: bool) -> Seq<char>
    decreases es, 1int,
{
    if es.len() == 0 {
        seq!['{', '}']
    } else if inline {
        seq!['{', ' '] + join(entries_texts(es, indent, true, trim_numbers), sp()) + seq![' ', '}']
    } else {
        join(with_prefix(entries_texts(es, indent, false, trim_numbers), tabs(indent)), lf())
    }
}

/// The text of each entry.
pub open spec fn entries_texts(es: Seq<SEntry>, indent: nat, inline: bool, trim_numbers: bool) -> Seq<
    Seq<char>,
>
    decreases es, 0int,
{
    if es.len() == 0 {
        Seq::empty()
    } else {
        entries_texts(es.drop_last(), indent, inline, trim_numbers).push(
            entry_text(es.last(), indent, inline, trim_numbers),
        )
    }
}

/// The text of an entry: a value read from a quoted script is written back as one;
/// otherwise a block value opens `key = {` over several lines unless the entry stands on one
/// line; a scalar is normalized, trimmed and escaped; anything else is written inline.
pub open spec fn entry_text(e: SEntry, indent: nat, inline: bool, trim_numbers: bool) -> Seq<char>
    decreases e, 0int,
{
    if e.meta.nested_quoted {
        key_value(e.key, spec_encode_nested(nested_payload(e.value, indent + 1, trim_numbers)))
    } else if !inline && is_multiline_value(e.value) {
        keyed_block(e.key, multiline_value(e.value, indent + 1, trim_numbers), indent)
    } else {
        match e.value {
            SValue::Scalar(text) => key_value(
                e.key,
                spec_escape(
                    render_entry_scalar(
                        e.key,
                        normalize_quoted_like_java(canonicalize_quoted_script(text)),
                        trim_numbers,
                    ),
                ),
            ),
            _ => key_value(e.key, value_text(e.value, indent + 1, true, trim_numbers)),
        }
    }
}

/// The script written inside the quotes of a nested entry: an object's entries on one line,
/// anything else inline.
pub open spec fn nested_payload(v: SValue, indent: nat, trim_numbers: bool) -> Seq<char>
    decreases v, 1int,
{
    match v {
        SValue::Object(es) => join(entries_texts(es, indent, true, trim_numbers), sp()),
        SValue::AnonymousObject(es) => join(entries_texts(es, indent, true, trim_numbers), sp()),
        _ => value_text(v, indent, true, trim_numbers),
    }
}

/// The body of a keyed block: a color's components, an object's entries, or a list's lines;
/// empty for an empty object or list.
pub open spec fn multiline_value(v: SValue, indent: nat, trim_numbers: bool) -> Seq<char>
    decreases v, 1int,
{
    match v {
        SValue::Scalar(t) => or_raw(color_body(t, indent), Seq::empty()),
        SValue::Object(es) => if es.len() == 0 {
            Seq::empty()
        } else {
            object_text(es, indent, false, trim_numbers)
        },
        SValue::AnonymousObject(es) => if es.len() == 0 {
            Seq::empty()
        } else {
            object_text(es, indent, false, trim_numbers)
        },
        SValue::Array(items) => if items.len() == 0 {
            Seq::empty()
        } else {
            array_block(items, indent, trim_numbers)
        },
    }
}

/// The lines of a list inside a block: a comparison expression on one line; otherwise the
/// lines of its items (see `array_chunks`).
pub open spec fn array_block(items: Seq<SValue>, indent: nat, trim_numbers: bool) -> Seq<char>
    decreases items, items.len() + 1,
{
    if single_expression_array(items) {
        tabs(indent) + join(expression_parts(items, trim_numbers), sp())
    } else {
        join(array_chunks(items, 0, indent, trim_numbers), lf())
    }
}

/// The lines written for the items of a list from index `i` on.  A name, `=` and a block
/// open `name = {`; a name and an attached comparison make one spaced line; `name =` and a
/// block open `name = {`; a scalar list of names is written one per line; a block stands as
/// `{ ... }` over several lines; anything else is one line.
pub open spec fn array_chunks(items: Seq<SValue>, i: int, indent: nat, trim_numbers: bool) -> Seq<
    Seq<char>,
>
    decreases items, items.len() - i,
{
    if i < 0 || i >= items.len() {
        Seq::empty()
    } else if then_equals_at(items, i) {
        block_chunk(
            prefixed_block(trim(scalar_of(items[i])), items[i + 2], indent, trim_numbers),
        ) + array_chunks(items, i + 3, indent, trim_numbers)
    } else if attached_at(items, i) {
        seq![attached_line(items, i, tabs(indent), trim_numbers)] + array_chunks(
            items,
            i + 2,
            indent,
            trim_numbers,
        )
    } else if equals_at(items, i) && equals_prefix(scalar_of(items[i])).len() > 0 {
        block_chunk(
            prefixed_block(equals_prefix(scalar_of(items[i])), items[i + 1], indent, trim_numbers),
        ) + array_chunks(items, i + 2, indent, trim_numbers)
    } else if !equals_at(items, i) && items[i] is Scalar && scalar_of(items[i]).contains(' ')
        && split_list_item(items[i], tabs(indent)) is Some {
        block_chunk(split_list_item(items[i], tabs(indent))->0) + array_chunks(
            items,
            i + 1,
            indent,
            trim_numbers,
        )
    } else if !equals_at(items, i) && is_composite(items[i]) {
        block_chunk(bare_block(items[i], indent, trim_numbers)) + array_chunks(
            items,
            i + 1,
            indent,
            trim_numbers,
        )
    } else {
        seq![tabs(indent) + value_text(items[i], indent, true, trim_numbers)] + array_chunks(
            items,
            i + 1,
            indent,
            trim_numbers,
        )
    }
}

/// `prefix = {` (leading names of a multi-word prefix on lines of their own), the block's
/// lines one level deeper, and `}`.
pub open spec fn prefixed_block(prefix_text: Seq<char>, composite: SValue, indent: nat, trim_numbers: bool) -> Seq<char>
    decreases composite, 2int,
{
    let parts = split_ws(prefix_text);
    let split = parts.len() >= 2 && (forall|k: int|
        0 <= k < parts.len() ==> is_simple_identifier(#[trigger] parts[k]));
    let leading = if split {
        with_prefix(parts.drop_last(), tabs(indent))
    } else {
        Seq::empty()
    };
    let open_key = if split {
        parts.last()
    } else {
        prefix_text
    };
    let open_line = tabs(indent) + open_key + seq![' ', '=', ' ', '{'];
    let body = match composite {
        SValue::Object(es) => with_prefix(
            entries_texts(es, indent + 1, false, trim_numbers),
            tabs(indent + 1),
        ),
        SValue::AnonymousObject(es) => with_prefix(
            entries_texts(es, indent + 1, false, trim_numbers),
            tabs(indent + 1),
        ),
        SValue::Array(its) => block_chunk(array_block(its, indent + 1, trim_numbers)),
        SValue::Scalar(_) => Seq::empty(),
    };
    join(leading.push(open_line) + body.push(tabs(indent) + seq!['}']), lf())
}

/// A block item written as `{`, its lines one level deeper, and `}`.
pub open spec fn bare_block(item: SValue, indent: nat, trim_numbers: bool) -> Seq<char>
    decreases item, 2int,
{
    let body = match item {
        SValue::Object(es) => with_prefix(
            entries_texts(es, indent + 1, false, trim_numbers),
            tabs(indent + 1),
        ),
        SValue::AnonymousObject(es) => with_prefix(
            entries_texts(es, indent + 1, false, trim_numbers),
            tabs(indent + 1),
        ),
        SValue::Array(its) => block_chunk(array_block(its, indent + 1, trim_numbers)),
        SValue::Scalar(_) => Seq::empty(),
    };
    join(seq![tabs(indent) + seq!['{']] + body.push(tabs(indent) + seq!['}']), lf())
}

/// The text written for a document's root: a keyed root's entries, one per line; an
/// anonymous root as an object; anything else inline.
pub open spec fn document_text(root: SValue) -> Seq<char> {
    match root {
        SValue::Object(es) => join(entries_texts(es, 0, false, true), lf()),
        SValue::AnonymousObject(es) => object_text(es, 0, false, true),
        _ => value_text(root, 0, true, true),
    }
}

} // verus!

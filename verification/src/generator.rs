//! Writing a document back as script text.

use vstd::prelude::*;

use crate::gen_spec::{
    all_ascii_digits, has_whitespace, leading_operator_len, normalize_quoted_like_java, or_raw,
    render_entry_scalar, render_scalar, split_ws, tabs, template_counter_key, token_part,
    token_parts, trim_numeric, trim_operator_numeric, trim_plain_decimal, trim_template_counter, word_fold, canonicalize_quoted_script, is_ident_char,
    is_simple_identifier, color_keywords, color_with, color_parts, color_body, prefixed_lines,
    split_fold, split_tokens_preserving_quotes, is_quoted_token, is_list_token, all_list_tokens,
    split_list_item, scalar_of, then_equals_at, attached_at, equals_at, equals_prefix,
    is_comparison_text, single_expression_array, block_chunk, with_prefix, key_value, keyed_block,
    is_multiline_value, value_depth, values_depth, entries_depth, lemma_values_depth_bound,
    lemma_entries_depth_bound, value_text, values_inline, object_text, entries_texts, entry_text,
    nested_payload, multiline_value, array_block, array_chunks, prefixed_block, bare_block, sp, lf,
    expression_parts, attached_line, document_text,
};
use crate::error::Hoi4ParserError;
use crate::Document;
use crate::compat::escape_chars;
use crate::ast::{
    lemma_view_entries_index, lemma_view_entries_len, lemma_view_values_index,
    lemma_view_values_len, view_entries, view_entry, view_value, view_values, Entry, ObjectNode,
    SEntry, SValue, Value,
};
use crate::nested::{decode_nested_chars, encode_nested_chars};
use crate::tokenizer::{tokenize_chars, view_token, view_tokens, Token};
use crate::text::{
    ascii_digit, char_is_alphanumeric, char_is_whitespace, chars_of, chars_range, contains_char,
    contains_exec, find_char_from, find_from, is_ascii_digit, lemma_find_shift, lemma_join_push,
    lemma_starts_with1, lemma_starts_with2, join_chars, views, lemma_ends_with2, occurs_at_exec,
    lemma_ends_with1, trim_end_len, join, trim_end_char, trim_start_char,
    push_all, string_of, trim, trim_bounds, trim_end, trim_start, unicode_whitespace,
};

verus! {

/// `n` tab characters.
fn tabs_exec(n: usize) -> (r: Vec<char>)
    ensures
        r@ == tabs(n as nat),
{
    let mut v: Vec<char> = Vec::new();
    let mut i: usize = 0;
    while i < n
        invariant
            i <= n,
            v@ == tabs(i as nat),
        decreases n - i,
    {
        v.push('\t');
        assert(tabs((i + 1) as nat) =~= tabs(i as nat).push('\t'));
        i += 1;
    }
    v
}

fn has_whitespace_exec(cs: &[char]) -> (r: bool)
    ensures
        r == has_whitespace(cs@),
{
    let mut i: usize = 0;
    while i < cs.len()
        invariant
            i <= cs.len(),
            forall|k: int| 0 <= k < i ==> !unicode_whitespace(#[trigger] cs@[k]),
        decreases cs.len() - i,
    {
        if char_is_whitespace(cs[i]) {
            return true;
        }
        i += 1;
    }
    false
}

/// Whether `cs[from..to]` is all ASCII digits.
fn all_digits_range(cs: &[char], from: usize, to: usize) -> (r: bool)
    requires
        from <= to <= cs@.len(),
    ensures
        r == all_ascii_digits(cs@.subrange(from as int, to as int)),
{
    let ghost s = cs@.subrange(from as int, to as int);
    let mut i: usize = from;
    while i < to
        invariant
            from <= i <= to <= cs@.len(),
            s == cs@.subrange(from as int, to as int),
            forall|k: int| from <= k < i ==> is_ascii_digit(#[trigger] cs@[k]),
        decreases to - i,
    {
        if !ascii_digit(cs[i]) {
            assert(!is_ascii_digit(s[i - from]));
            return false;
        }
        i += 1;
    }
    assert forall|k: int| 0 <= k < s.len() implies is_ascii_digit(#[trigger] s[k]) by {
        assert(s[k] == cs@[from + k]);
    }
    true
}

/// The plain-decimal trimming of a scalar (see `trim_plain_decimal`).
fn trim_plain_decimal_chars(raw: &[char]) -> (r: Option<Vec<char>>)
    ensures
        match r {
            Some(v) => trim_plain_decimal(raw@) == Some(v@),
            None => trim_plain_decimal(raw@) is None,
        },
{
    let n = raw.len();
    if n == 0 || raw[0] == '"' || raw[n - 1] == '"' || has_whitespace_exec(raw) {
        return None;
    }
    let sign_len: usize = if raw[0] == '+' || raw[0] == '-' {
        1
    } else {
        0
    };
    let ghost body = raw@.skip(sign_len as int);
    let d = find_char_from(raw, sign_len, '.');
    proof {
        lemma_find_shift(raw@, sign_len as int, '.');
    }
    if d >= n {
        return None;
    }
    let ghost integer = body.take(d - sign_len);
    let ghost fractional = body.skip(d - sign_len + 1);
    assert(integer =~= raw@.subrange(sign_len as int, d as int));
    assert(fractional =~= raw@.subrange(d + 1, n as int));
    if d == sign_len || d + 1 == n {
        return None;
    }
    let frac = chars_range(raw, d + 1, n);
    if contains_char(frac.as_slice(), '.') || !all_digits_range(raw, sign_len, d)
        || !all_digits_range(raw, d + 1, n) {
        return None;
    }
    let mut e: usize = n;
    while e > d + 1 && raw[e - 1] == '0'
        invariant
            d + 1 <= e <= n == raw@.len(),
            trim_end_char(fractional, '0') == trim_end_char(raw@.subrange(d + 1, e as int), '0'),
        decreases e,
    {
        assert(raw@.subrange(d + 1, e as int).drop_last() =~= raw@.subrange(d + 1, e - 1));
        e -= 1;
    }
    let ghost trimmed = trim_end_char(fractional, '0');
    assert(trimmed == raw@.subrange(d + 1, e as int));
    if e == n {
        return None;
    }
    let mut out = chars_range(raw, 0, d);
    assert(raw@.take(sign_len as int) + integer =~= raw@.subrange(0, d as int));
    if e > d + 1 {
        out.push('.');
        let t = chars_range(raw, d + 1, e);
        push_all(&mut out, t.as_slice());
        assert(out@ =~= raw@.take(sign_len as int) + integer + (seq!['.'] + trimmed));
    } else {
        assert(out@ =~= raw@.take(sign_len as int) + integer + Seq::<char>::empty());
    }
    Some(out)
}

/// The length of the comparison sign that starts `raw`.
fn leading_operator_len_exec(raw: &[char]) -> (r: usize)
    ensures
        r as int == leading_operator_len(raw@),
{
    let n = raw.len();
    proof {
        lemma_starts_with2(raw@, '>', '=');
        lemma_starts_with2(raw@, '<', '=');
        lemma_starts_with2(raw@, '!', '=');
        lemma_starts_with1(raw@, '>');
        lemma_starts_with1(raw@, '<');
        lemma_starts_with1(raw@, '=');
    }
    if n >= 2 && raw[1] == '=' && (raw[0] == '>' || raw[0] == '<' || raw[0] == '!') {
        2
    } else if n >= 1 && (raw[0] == '>' || raw[0] == '<' || raw[0] == '=') {
        1
    } else {
        0
    }
}

/// The trimming of a sign followed by a decimal (see `trim_operator_numeric`).
fn trim_operator_numeric_chars(raw: &[char]) -> (r: Option<Vec<char>>)
    ensures
        match r {
            Some(v) => trim_operator_numeric(raw@) == Some(v@),
            None => trim_operator_numeric(raw@) is None,
        },
{
    let n = raw.len();
    let op_len = leading_operator_len_exec(raw);
    if n == 0 || raw[0] == '"' || raw[n - 1] == '"' || op_len == 0 {
        return None;
    }
    let (a, b) = trim_bounds(raw, op_len, n);
    let ghost rest = raw@.skip(op_len as int);
    assert(rest =~= raw@.subrange(op_len as int, n as int));
    let ghost ts = trim_start(rest);
    let ghost te = trim_end(ts);
    assert(ts == raw@.subrange(a as int, n as int));
    assert(te == raw@.subrange(a as int, b as int));
    assert(rest.take(rest.len() - ts.len()) =~= raw@.subrange(op_len as int, a as int));
    assert(ts.skip(te.len() as int) =~= raw@.subrange(b as int, n as int));
    let core = chars_range(raw, a, b);
    if core.len() == 0 || has_whitespace_exec(core.as_slice()) {
        return None;
    }
    match trim_plain_decimal_chars(core.as_slice()) {
        None => None,
        Some(num) => {
            let mut out = chars_range(raw, 0, a);
            assert(raw@.subrange(0, a as int) =~= raw@.take(op_len as int) + rest.take(
                rest.len() - ts.len(),
            ));
            push_all(&mut out, num.as_slice());
            let tail = chars_range(raw, b, n);
            push_all(&mut out, tail.as_slice());
            Some(out)
        },
    }
}

/// The numeric trimming of a scalar (see `trim_numeric`).
fn trim_numeric_chars(raw: &[char]) -> (r: Option<Vec<char>>)
    ensures
        match r {
            Some(v) => trim_numeric(raw@) == Some(v@),
            None => trim_numeric(raw@) is None,
        },
{
    match trim_plain_decimal_chars(raw) {
        Some(d) => Some(d),
        None => trim_operator_numeric_chars(raw),
    }
}

/// The trimming of a `template_counter` value (see `trim_template_counter`).
fn trim_template_counter_chars(key: &[char], raw: &[char]) -> (r: Option<Vec<char>>)
    ensures
        match r {
            Some(v) => trim_template_counter(key@, raw@) == Some(v@),
            None => trim_template_counter(key@, raw@) is None,
        },
{
    let kw = ['t', 'e', 'm', 'p', 'l', 'a', 't', 'e', '_', 'c', 'o', 'u', 'n', 't', 'e', 'r'];
    let ks = kw.as_slice();
    assert(ks@ =~= template_counter_key());
    let mut same = key.len() == ks.len();
    if same {
        let mut k: usize = 0;
        while k < ks.len()
            invariant
                k <= ks.len() == key.len(),
                same == (forall|m: int| 0 <= m < k ==> key@[m] == ks@[m]),
            decreases ks.len() - k,
        {
            if key[k] != ks[k] {
                same = false;
            }
            k += 1;
        }
        if same {
            assert(key@ =~= ks@);
        }
    }
    let n = raw.len();
    if !same || n == 0 || raw[0] == '"' || raw[n - 1] == '"' || has_whitespace_exec(raw)
        || !all_digits_range(raw, 0, n) || (n == 1 && raw[0] == '0') {
        proof {
            assert(raw@.subrange(0, n as int) =~= raw@);
            if n == 1 && raw[0] == '0' {
                assert(raw@ =~= seq!['0']);
            }
        }
        return None;
    }
    proof {
        assert(raw@.subrange(0, n as int) =~= raw@);
        assert(raw@ != seq!['0']);
    }
    let mut s: usize = 0;
    while s < n && raw[s] == '0'
        invariant
            s <= n == raw@.len(),
            trim_start_char(raw@, '0') == trim_start_char(raw@.subrange(s as int, n as int), '0'),
        decreases n - s,
    {
        assert(raw@.subrange(s as int, n as int).skip(1) =~= raw@.subrange(s + 1, n as int));
        s += 1;
    }
    assert(trim_start_char(raw@, '0') == raw@.subrange(s as int, n as int));
    if s == n {
        let mut z: Vec<char> = Vec::new();
        z.push('0');
        assert(z@ =~= seq!['0']);
        return Some(z);
    }
    if s == 0 {
        return None;
    }
    Some(chars_range(raw, s, n))
}

/// The text left of an optional rewrite: the rewrite when there is one, else the original.
fn or_raw_exec(o: Option<Vec<char>>, raw: &[char]) -> (r: Vec<char>)
    ensures
        r@ == or_raw(
            match o {
                Some(v) => Some(v@),
                None => None,
            },
            raw@,
        ),
{
    match o {
        Some(v) => v,
        None => chars_range(raw, 0, raw.len()),
    }
}

/// A numeric scalar with trailing zeros of its decimal trimmed:
/// `1.000` becomes `1`, `-0.5000` becomes `-0.5`, `< 0.50` becomes `< 0.5`; anything else
/// (quoted text, dates such as `1965.1.1.1`, plain integers) is returned unchanged.
pub fn trim_numeric_scalar_like_java(raw: &str) -> (r: String)
    ensures
        r@ == or_raw(trim_numeric(raw@), raw@),
{
    let cs = chars_of(raw);
    let t = trim_numeric_chars(cs.as_slice());
    let out = or_raw_exec(t, cs.as_slice());
    string_of(out.as_slice())
}

/// The value of a `template_counter` entry without its leading zeros (`06` becomes `6`, `00`
/// becomes `0`); any other key, or a value that is not all digits, is returned unchanged.
pub fn trim_template_counter_scalar_like_java(key: &str, raw: &str) -> (r: String)
    ensures
        r@ == or_raw(trim_template_counter(key@, raw@), raw@),
{
    let ks = chars_of(key);
    let cs = chars_of(raw);
    let t = trim_template_counter_chars(ks.as_slice(), cs.as_slice());
    let out = or_raw_exec(t, cs.as_slice());
    string_of(out.as_slice())
}

/// A scalar as written when numbers are trimmed (see `render_scalar`).
fn render_scalar_chars(raw: &[char], trim_numbers: bool) -> (r: Vec<char>)
    ensures
        r@ == or_raw(render_scalar(raw@, trim_numbers), raw@),
{
    if trim_numbers {
        let t = trim_numeric_chars(raw);
        or_raw_exec(t, raw)
    } else {
        chars_range(raw, 0, raw.len())
    }
}

/// An entry's scalar as written (see `render_entry_scalar`).
fn render_entry_scalar_chars(key: &[char], raw: &[char], trim_numbers: bool) -> (r: Vec<char>)
    ensures
        r@ == render_entry_scalar(key@, raw@, trim_numbers),
{
    match trim_template_counter_chars(key, raw) {
        Some(t) => t,
        None => render_scalar_chars(raw, trim_numbers),
    }
}

/// A quoted scalar with an underscore and no space or slash, without its quotes.
fn normalize_quoted_chars(raw: &[char]) -> (r: Vec<char>)
    ensures
        r@ == normalize_quoted_like_java(raw@),
{
    let n = raw.len();
    if n >= 2 && raw[0] == '"' && raw[n - 1] == '"' && contains_char(raw, '_') && !contains_char(
        raw,
        ' ',
    ) && !contains_char(raw, '/') {
        chars_range(raw, 1, n - 1)
    } else {
        chars_range(raw, 0, n)
    }
}

} // verus!

verus! {

/// The text a token contributes to a rewritten script (see `token_part`).
fn token_text(t: &Token) -> (r: Option<Vec<char>>)
    ensures
        match r {
            Some(v) => token_part(view_token(*t)) == Some(v@),
            None => token_part(view_token(*t)) is None,
        },
{
    match t {
        Token::Ident(s) => Some(chars_of(s.as_str())),
        Token::StringLiteral(s) => Some(chars_of(s.as_str())),
        Token::Equals => {
            let mut v: Vec<char> = Vec::new();
            v.push('=');
            assert(v@ =~= seq!['=']);
            Some(v)
        },
        Token::LBrace => {
            let mut v: Vec<char> = Vec::new();
            v.push('{');
            assert(v@ =~= seq!['{']);
            Some(v)
        },
        Token::RBrace => {
            let mut v: Vec<char> = Vec::new();
            v.push('}');
            assert(v@ =~= seq!['}']);
            Some(v)
        },
        Token::Newline => None,
    }
}

/// A quoted script rewritten on one line (see `canonicalize_quoted_script`).
fn canonicalize_quoted_chars(raw: &[char]) -> (r: Vec<char>)
    ensures
        r@ == canonicalize_quoted_script(raw@),
{
    let n = raw.len();
    let bs = ['\\', '"'];
    assert(bs@ =~= seq!['\\', '"']);
    if !(n > 0 && raw[0] == '"' && raw[n - 1] == '"' && contains_exec(raw, bs.as_slice())
        && contains_char(raw, '=')) {
        assert(raw@.subrange(0, n as int) =~= raw@);
        return chars_range(raw, 0, n);
    }
    assert(raw@.subrange(0, n as int) =~= raw@);
    match decode_nested_chars(raw) {
        None => chars_range(raw, 0, n),
        Some(d) => match tokenize_chars(&d) {
            Err(_) => chars_range(raw, 0, n),
            Ok(ts) => {
                let ghost sts = view_tokens(ts@);
                let mut parts: Vec<Vec<char>> = Vec::new();
                let mut i: usize = 0;
                while i < ts.len()
                    invariant
                        i <= ts@.len(),
                        sts == view_tokens(ts@),
                        views(parts@) == token_parts(sts.take(i as int)),
                    decreases ts.len() - i,
                {
                    proof {
                        assert(sts.take(i + 1).drop_last() =~= sts.take(i as int));
                        assert(sts.take(i + 1).last() == view_token(ts@[i as int]));
                    }
                    match token_text(&ts[i]) {
                        Some(p) => {
                            let ghost before = parts@;
                            parts.push(p);
                            assert(views(parts@) =~= views(before).push(p@));
                        },
                        None => {},
                    }
                    i += 1;
                }
                assert(sts.take(ts@.len() as int) =~= sts);
                if parts.len() == 0 {
                    return chars_range(raw, 0, n);
                }
                let sep = [' '];
                assert(sep@ =~= seq![' ']);
                let joined = join_chars(&parts, sep.as_slice());
                encode_nested_chars(joined.as_slice())
            },
        },
    }
}

/// The parts of `cs` separated by whitespace (see `split_ws`).
fn split_ws_exec(cs: &[char]) -> (r: Vec<Vec<char>>)
    ensures
        views(r@) == split_ws(cs@),
{
    let mut words: Vec<Vec<char>> = Vec::new();
    let mut cur: Vec<char> = Vec::new();
    let mut i: usize = 0;
    while i < cs.len()
        invariant
            i <= cs@.len(),
            word_fold(cs@.take(i as int)).words == views(words@),
            word_fold(cs@.take(i as int)).current == cur@,
        decreases cs.len() - i,
    {
        proof {
            assert(cs@.take(i + 1).drop_last() =~= cs@.take(i as int));
        }
        let c = cs[i];
        if char_is_whitespace(c) {
            if cur.len() > 0 {
                let ghost before = words@;
                let w = cur;
                cur = Vec::new();
                words.push(w);
                assert(views(words@) =~= views(before).push(w@));
                assert(cur@ =~= Seq::<char>::empty());
            }
        } else {
            cur.push(c);
        }
        i += 1;
    }
    assert(cs@.take(cs@.len() as int) =~= cs@);
    if cur.len() > 0 {
        let ghost before = words@;
        let ghost c = cur@;
        words.push(cur);
        assert(views(words@) =~= views(before).push(c));
    }
    words
}


fn is_ident_char_exec(c: char) -> (r: bool)
    ensures
        r == is_ident_char(c),
{
    char_is_alphanumeric(c) || c == '_' || c == '-' || c == '.' || c == ':' || c == '\u{27}'
        || c == '\u{2019}'
}

/// Whether `cs[from..to]` is a plain name (see `is_simple_identifier`).
fn is_simple_identifier_range(cs: &[char], from: usize, to: usize) -> (r: bool)
    requires
        from <= to <= cs@.len(),
    ensures
        r == is_simple_identifier(cs@.subrange(from as int, to as int)),
{
    let ghost s = cs@.subrange(from as int, to as int);
    if from == to {
        return false;
    }
    let mut i: usize = from;
    while i < to
        invariant
            from <= i <= to <= cs@.len(),
            s == cs@.subrange(from as int, to as int),
            forall|k: int| from <= k < i ==> is_ident_char(#[trigger] cs@[k]),
        decreases to - i,
    {
        if !is_ident_char_exec(cs[i]) {
            assert(!is_ident_char(s[i - from]));
            return false;
        }
        i += 1;
    }
    assert forall|k: int| 0 <= k < s.len() implies is_ident_char(#[trigger] s[k]) by {
        assert(s[k] == cs@[from + k]);
    }
    true
}

fn is_simple_identifier_exec(cs: &[char]) -> (r: bool)
    ensures
        r == is_simple_identifier(cs@),
{
    assert(cs@.subrange(0, cs@.len() as int) =~= cs@);
    is_simple_identifier_range(cs, 0, cs.len())
}

/// The keyword of the `k`-th color form.
fn color_keyword_exec(k: usize) -> (r: Vec<char>)
    requires
        k < 3,
    ensures
        r@ == color_keywords()[k as int],
{
    let mut v: Vec<char> = Vec::new();
    if k == 0 {
        v.push('r');
        v.push('g');
        v.push('b');
        assert(v@ =~= seq!['r', 'g', 'b']);
    } else if k == 1 {
        v.push('H');
        v.push('S');
        v.push('V');
        assert(v@ =~= seq!['H', 'S', 'V']);
    } else {
        v.push('h');
        v.push('s');
        v.push('v');
        assert(v@ =~= seq!['h', 's', 'v']);
    }
    v
}

/// Where the inside of the `k`-th color form starts and ends in `text` (see `color_with`).
fn color_with_exec(text: &[char], k: usize) -> (r: Option<(usize, usize)>)
    requires
        k < 3,
    ensures
        match r {
            Some((a, b)) => a <= b <= text@.len() && color_with(text@, k as int) == Some(
                (color_keywords()[k as int], text@.subrange(a as int, b as int)),
            ),
            None => color_with(text@, k as int) is None,
        },
{
    let mut prefix = color_keyword_exec(k);
    prefix.push(' ');
    prefix.push('{');
    prefix.push(' ');
    let ghost kw = color_keywords()[k as int];
    assert(prefix@ =~= kw + seq![' ', '{', ' ']);
    let plen = prefix.len();
    let n = text.len();
    proof {
        if plen <= n {
            lemma_ends_with2(text@.skip(plen as int), ' ', '}');
        }
    }
    if !occurs_at_exec(text, 0, prefix.as_slice()) {
        return None;
    }
    if n < plen + 2 || text[n - 2] != ' ' || text[n - 1] != '}' {
        return None;
    }
    Some((plen, n - 2))
}

/// A color scalar written as a block body (see `color_body`).
fn color_body_exec(text: &[char], indent: usize) -> (r: Option<Vec<char>>)
    ensures
        match r {
            Some(v) => color_body(text@, indent as nat) == Some(v@),
            None => color_body(text@, indent as nat) is None,
        },
{
    let r0 = color_with_exec(text, 0);
    let r1 = color_with_exec(text, 1);
    let r2 = color_with_exec(text, 2);
    let (k, found): (usize, Option<(usize, usize)>) = if r0.is_some() {
        (0, r0)
    } else if r1.is_some() {
        (1, r1)
    } else {
        (2, r2)
    };
    let (a, b) = match found {
        None => {
            return None;
        },
        Some(p) => p,
    };
    assert(color_parts(text@) == Some((color_keywords()[k as int], text@.subrange(a as int, b as int))));
    let (ta, tb) = trim_bounds(text, a, b);
    if ta == tb {
        return None;
    }
    let inner = chars_range(text, a, b);
    let words = split_ws_exec(inner.as_slice());
    let pre = tabs_exec(indent);
    let kw = color_keyword_exec(k);
    let mut out = chars_range(pre.as_slice(), 0, pre.len());
    push_all(&mut out, kw.as_slice());
    let ghost vw = views(words@);
    assert(pre@.subrange(0, pre@.len() as int) =~= pre@);
    assert(vw.take(0) =~= Seq::<Seq<char>>::empty());
    let mut j: usize = 0;
    while j < words.len()
        invariant
            j <= words@.len(),
            vw == views(words@),
            pre@ == tabs(indent as nat),
            out@ == tabs(indent as nat) + kw@ + prefixed_lines(vw.take(j as int), pre@),
        decreases words.len() - j,
    {
        assert(vw.take(j + 1).drop_last() =~= vw.take(j as int));
        out.push('\n');
        push_all(&mut out, pre.as_slice());
        push_all(&mut out, words[j].as_slice());
        assert(out@ =~= tabs(indent as nat) + kw@ + prefixed_lines(vw.take(j + 1), pre@));
        j += 1;
    }
    assert(vw.take(words@.len() as int) =~= vw);
    Some(out)
}


/// A list scalar split into tokens (see `split_tokens_preserving_quotes`).
fn split_tokens_exec(text: &[char]) -> (r: Option<Vec<Vec<char>>>)
    ensures
        match r {
            Some(v) => split_tokens_preserving_quotes(text@) == Some(views(v@)),
            None => split_tokens_preserving_quotes(text@) is None,
        },
{
    let mut tokens: Vec<Vec<char>> = Vec::new();
    let mut current: Vec<char> = Vec::new();
    let mut in_quote: Option<bool> = None;
    let mut escaped = false;
    let mut i: usize = 0;
    while i < text.len()
        invariant
            i <= text@.len(),
            split_fold(text@.take(i as int)).tokens == views(tokens@),
            split_fold(text@.take(i as int)).current == current@,
            split_fold(text@.take(i as int)).in_quote == in_quote,
            split_fold(text@.take(i as int)).escaped == escaped,
        decreases text.len() - i,
    {
        proof {
            assert(text@.take(i + 1).drop_last() =~= text@.take(i as int));
        }
        let ch = text[i];
        match in_quote {
            Some(ascii) => {
                current.push(ch);
                if ascii {
                    if escaped {
                        escaped = false;
                    } else if ch == '\\' {
                        escaped = true;
                    } else if ch == '"' {
                        in_quote = None;
                    }
                } else if ch == '\u{201d}' || ch == '\u{2019}' {
                    in_quote = None;
                }
            },
            None => {
                if char_is_whitespace(ch) {
                    if current.len() > 0 {
                        let ghost before = tokens@;
                        let w = current;
                        current = Vec::new();
                        tokens.push(w);
                        assert(views(tokens@) =~= views(before).push(w@));
                        assert(current@ =~= Seq::<char>::empty());
                    }
                } else if ch == ',' {
                    if current.len() > 0 {
                        let ghost before = tokens@;
                        let w = current;
                        current = Vec::new();
                        tokens.push(w);
                        assert(views(tokens@) =~= views(before).push(w@));
                        assert(current@ =~= Seq::<char>::empty());
                    }
                    let ghost before = tokens@;
                    let mut comma: Vec<char> = Vec::new();
                    comma.push(',');
                    assert(comma@ =~= seq![',']);
                    tokens.push(comma);
                    assert(views(tokens@) =~= views(before).push(seq![',']));
                } else if ch == '"' {
                    current.push(ch);
                    in_quote = Some(true);
                } else if ch == '\u{201c}' || ch == '\u{2018}' {
                    current.push(ch);
                    in_quote = Some(false);
                } else {
                    current.push(ch);
                }
            },
        }
        i += 1;
    }
    assert(text@.take(text@.len() as int) =~= text@);
    if in_quote.is_some() {
        return None;
    }
    if current.len() > 0 {
        let ghost before = tokens@;
        let ghost c = current@;
        tokens.push(current);
        assert(views(tokens@) =~= views(before).push(c));
    }
    Some(tokens)
}

fn is_quoted_token_exec(t: &[char]) -> (r: bool)
    ensures
        r == is_quoted_token(t@),
{
    let n = t.len();
    n >= 2 && ((t[0] == '"' && t[n - 1] == '"') || (t[0] == '\u{201c}' && t[n - 1] == '\u{201d}')
        || (t[0] == '\u{2018}' && t[n - 1] == '\u{2019}'))
}

fn is_list_token_exec(t: &[char]) -> (r: bool)
    ensures
        r == is_list_token(t@),
{
    proof {
        if t@ == seq![','] {
            assert(t@.len() == 1 && t@[0] == ',');
        }
        if t@.len() == 1 && t@[0] == ',' {
            assert(t@ =~= seq![',']);
        }
    }
    (t.len() == 1 && t[0] == ',') || is_simple_identifier_exec(t) || is_quoted_token_exec(t)
}

/// A scalar list of names written one per line (see `split_list_item`).
fn split_list_item_exec(item: &Value, prefix: &[char]) -> (r: Option<Vec<char>>)
    ensures
        match r {
            Some(v) => split_list_item(view_value(*item), prefix@) == Some(v@),
            None => split_list_item(view_value(*item), prefix@) is None,
        },
{
    match item {
        Value::Scalar(s) => {
            let text = chars_of(s.as_str());
            if !contains_char(text.as_slice(), ' ') {
                return None;
            }
            match split_tokens_exec(text.as_slice()) {
                None => None,
                Some(toks) => {
                    let ghost vt = views(toks@);
                    if toks.len() < 2 {
                        return None;
                    }
                    let mut j: usize = 0;
                    while j < toks.len()
                        invariant
                            j <= toks@.len(),
                            vt == views(toks@),
                            split_tokens_preserving_quotes(text@) == Some(vt),
                            text@ == s@,
                            *item == Value::Scalar(*s),
                            forall|m: int| 0 <= m < j ==> is_list_token(#[trigger] vt[m]),
                        decreases toks.len() - j,
                    {
                        if !is_list_token_exec(toks[j].as_slice()) {
                            assert(!is_list_token(vt[j as int]));
                            assert(!all_list_tokens(vt));
                            return None;
                        }
                        j += 1;
                    }
                    assert(all_list_tokens(vt));
                    let mut lines: Vec<Vec<char>> = Vec::new();
                    let mut k: usize = 0;
                    while k < toks.len()
                        invariant
                            k <= toks@.len(),
                            vt == views(toks@),
                            views(lines@) == vt.take(k as int).map_values(
                                |t: Seq<char>| prefix@ + t,
                            ),
                        decreases toks.len() - k,
                    {
                        let ghost before = lines@;
                        let mut line = chars_range(prefix, 0, prefix.len());
                        assert(prefix@.subrange(0, prefix@.len() as int) =~= prefix@);
                        push_all(&mut line, toks[k].as_slice());
                        let ghost lv = line@;
                        lines.push(line);
                        assert(views(lines@) =~= views(before).push(lv));
                        assert(vt.take(k + 1).map_values(|t: Seq<char>| prefix@ + t) =~= vt.take(
                            k as int,
                        ).map_values(|t: Seq<char>| prefix@ + t).push(prefix@ + vt[k as int]));
                        assert(views(lines@) =~= vt.take(k + 1).map_values(
                            |t: Seq<char>| prefix@ + t,
                        ));
                        k += 1;
                    }
                    assert(vt.take(toks@.len() as int) =~= vt);
                    let nl = ['\n'];
                    assert(nl@ =~= seq!['\n']);
                    Some(join_chars(&lines, nl.as_slice()))
                },
            }
        },
        _ => None,
    }
}


/// The characters of a scalar item (none for other items).
fn scalar_chars(v: &Value) -> (r: Vec<char>)
    ensures
        r@ == scalar_of(view_value(*v)),
{
    match v {
        Value::Scalar(s) => chars_of(s.as_str()),
        _ => Vec::new(),
    }
}

/// The item at `i` of a list, as its model sees it.
proof fn lemma_item(items: Seq<Value>, i: int)
    requires
        0 <= i < items.len(),
    ensures
        view_values(items).len() == items.len(),
        view_values(items)[i] == view_value(items[i]),
        value_depth(view_value(items[i])) <= values_depth(view_values(items)),
{
    lemma_view_values_index(items, i);
    lemma_values_depth_bound(view_values(items), values_depth(view_values(items)));
    assert(value_depth(view_values(items)[i]) <= values_depth(view_values(items)));
}

/// The entry at `i` of an object, as its model sees it.
proof fn lemma_entry(es: Seq<Entry>, i: int)
    requires
        0 <= i < es.len(),
    ensures
        view_entries(es).len() == es.len(),
        view_entries(es)[i] == view_entry(es[i]),
        value_depth(view_value(es[i].value)) <= entries_depth(view_entries(es)),
{
    lemma_view_entries_index(es, i);
    lemma_entries_depth_bound(view_entries(es), entries_depth(view_entries(es)));
    assert(value_depth(view_entries(es)[i].value) <= entries_depth(view_entries(es)));
}

/// Whether `items[i]` (a name), `items[i + 1]` (`=`) and a block `items[i + 2]` go together.
fn then_equals_exec(items: &Vec<Value>, i: usize) -> (r: bool)
    ensures
        r == then_equals_at(view_values(items@), i as int),
{
    proof {
        lemma_view_values_len(items@);
    }
    if i >= items.len() || items.len() - i <= 2 {
        return false;
    }
    proof {
        lemma_item(items@, i as int);
        lemma_item(items@, i + 1);
        lemma_item(items@, i + 2);
    }
    if !matches!(items[i], Value::Scalar(_)) || !matches!(items[i + 1], Value::Scalar(_)) || matches!(items[i + 2], Value::Scalar(_)) {
        return false;
    }
    let p = scalar_chars(&items[i]);
    let (a, b) = trim_bounds(p.as_slice(), 0, p.len());
    assert(p@.subrange(0, p@.len() as int) =~= p@);
    if a == b {
        return false;
    }
    let q = scalar_chars(&items[i + 1]);
    let (c, d) = trim_bounds(q.as_slice(), 0, q.len());
    assert(q@.subrange(0, q@.len() as int) =~= q@);
    let ghost tq = q@.subrange(c as int, d as int);
    proof {
        if tq == seq!['='] {
            assert(tq.len() == 1 && tq[0] == '=');
        }
        if d - c == 1 && q@[c as int] == '=' {
            assert(tq =~= seq!['=']);
        }
    }
    d - c == 1 && q[c] == '='
}

/// Whether `items[i]` is a name and `items[i + 1]` a sign glued to a name (see `attached_at`).
fn attached_exec(items: &Vec<Value>, i: usize) -> (r: bool)
    ensures
        r == attached_at(view_values(items@), i as int),
{
    proof {
        lemma_view_values_len(items@);
    }
    if i >= items.len() || items.len() - i <= 1 {
        return false;
    }
    proof {
        lemma_item(items@, i as int);
        lemma_item(items@, i + 1);
    }
    if !matches!(items[i], Value::Scalar(_)) || !matches!(items[i + 1], Value::Scalar(_)) {
        return false;
    }
    let left = scalar_chars(&items[i]);
    let right = scalar_chars(&items[i + 1]);
    if left.len() == 0 || right.len() == 0 || (right[0] != '<' && right[0] != '>') {
        return false;
    }
    assert(right@.subrange(1, right@.len() as int) =~= right@.skip(1));
    is_simple_identifier_range(right.as_slice(), 1, right.len())
}

/// Whether `items[i]` ends with `=` and a block follows (see `equals_at`).
fn equals_exec(items: &Vec<Value>, i: usize) -> (r: bool)
    ensures
        r == equals_at(view_values(items@), i as int),
{
    proof {
        lemma_view_values_len(items@);
    }
    if i >= items.len() || items.len() - i <= 1 {
        return false;
    }
    proof {
        lemma_item(items@, i as int);
        lemma_item(items@, i + 1);
    }
    if !matches!(items[i], Value::Scalar(_)) || matches!(items[i + 1], Value::Scalar(_)) {
        return false;
    }
    let p = scalar_chars(&items[i]);
    let b = trim_end_len(p.as_slice());
    proof {
        lemma_ends_with1(p@.subrange(0, b as int), '=');
    }
    b > 0 && p[b - 1] == '='
}

/// The name before the trailing `=` signs of a scalar (see `equals_prefix`).
fn equals_prefix_exec(p: &[char]) -> (r: Vec<char>)
    ensures
        r@ == equals_prefix(p@),
{
    let b = trim_end_len(p);
    let mut c = b;
    while c > 0 && p[c - 1] == '='
        invariant
            c <= b <= p@.len(),
            trim_end_char(p@.subrange(0, b as int), '=') == trim_end_char(p@.subrange(0, c as int), '='),
        decreases c,
    {
        assert(p@.subrange(0, c as int).drop_last() =~= p@.subrange(0, c - 1));
        c -= 1;
    }
    assert(trim_end_char(p@.subrange(0, c as int), '=') == p@.subrange(0, c as int));
    let (x, y) = trim_bounds(p, 0, c);
    chars_range(p, x, y)
}

/// Whether a scalar is a comparison sign standing alone.
fn is_comparison_exec(t: &[char]) -> (r: bool)
    ensures
        r == is_comparison_text(t@),
{
    proof {
        if t@.len() == 1 {
            assert(t@ =~= seq![t@[0]]);
        }
        if t@.len() == 2 {
            assert(t@ =~= seq![t@[0], t@[1]]);
        }
        assert(seq!['>'].len() == 1 && seq!['<'].len() == 1);
        assert(seq!['>', '='].len() == 2 && seq!['>', '='][0] == '>' && seq!['>', '='][1] == '=');
        assert(seq!['<', '='][0] == '<' && seq!['<', '='][1] == '=');
        assert(seq!['=', '='][0] == '=' && seq!['=', '='][1] == '=');
        assert(seq!['!', '='][0] == '!' && seq!['!', '='][1] == '=');
        assert(seq!['>'][0] == '>' && seq!['<'][0] == '<');
    }
    (t.len() == 1 && (t[0] == '>' || t[0] == '<')) || (t.len() == 2 && t[1] == '=' && (t[0] == '>'
        || t[0] == '<' || t[0] == '=' || t[0] == '!'))
}

/// Whether a list forms one comparison expression (see `single_expression_array`).
fn single_expression_exec(items: &Vec<Value>) -> (r: bool)
    ensures
        r == single_expression_array(view_values(items@)),
{
    let ghost vv = view_values(items@);
    proof {
        lemma_view_values_len(items@);
    }
    if items.len() < 3 {
        return false;
    }
    let mut all_names = true;
    let mut i: usize = 0;
    while i < items.len()
        invariant
            i <= items@.len(),
            vv == view_values(items@),
            vv.len() == items@.len(),
            all_names == (forall|k: int|
                0 <= k < i ==> #[trigger] vv[k] is Scalar && is_simple_identifier(scalar_of(vv[k]))),
        decreases items.len() - i,
    {
        proof {
            lemma_item(items@, i as int);
        }
        let t = scalar_chars(&items[i]);
        if !matches!(items[i], Value::Scalar(_)) || !is_simple_identifier_exec(t.as_slice()) {
            all_names = false;
        }
        i += 1;
    }
    if all_names {
        return false;
    }
    let mut has_op = false;
    let mut j: usize = 0;
    while j < items.len()
        invariant
            j <= items@.len(),
            vv == view_values(items@),
            vv.len() == items@.len(),
            forall|k: int|
                0 <= k < j ==> #[trigger] vv[k] is Scalar && !scalar_of(vv[k]).contains(' '),
            has_op == (exists|k: int| 0 <= k < j && is_comparison_text(scalar_of(#[trigger] vv[k]))),
        decreases items.len() - j,
    {
        proof {
            lemma_item(items@, j as int);
        }
        if !matches!(items[j], Value::Scalar(_)) {
            return false;
        }
        let t = scalar_chars(&items[j]);
        if contains_char(t.as_slice(), ' ') {
            return false;
        }
        if is_comparison_exec(t.as_slice()) {
            has_op = true;
        }
        j += 1;
    }
    has_op
}

/// A block as the lines it adds: none when it is empty.
fn block_chunks(b: Vec<char>) -> (r: Vec<Vec<char>>)
    ensures
        views(r@) == block_chunk(b@),
{
    let mut r: Vec<Vec<char>> = Vec::new();
    if b.len() > 0 {
        let ghost bv = b@;
        r.push(b);
        assert(views(r@) =~= seq![bv]);
    } else {
        assert(views(r@) =~= Seq::<Seq<char>>::empty());
    }
    r
}

/// Each text after `prefix`.
fn prefix_all(texts: &Vec<Vec<char>>, prefix: &[char]) -> (r: Vec<Vec<char>>)
    ensures
        views(r@) == with_prefix(views(texts@), prefix@),
{
    let ghost vt = views(texts@);
    let mut out: Vec<Vec<char>> = Vec::new();
    let mut k: usize = 0;
    while k < texts.len()
        invariant
            k <= texts@.len(),
            vt == views(texts@),
            views(out@) == with_prefix(vt.take(k as int), prefix@),
        decreases texts.len() - k,
    {
        let ghost before = out@;
        let mut line = chars_range(prefix, 0, prefix.len());
        assert(prefix@.subrange(0, prefix@.len() as int) =~= prefix@);
        push_all(&mut line, texts[k].as_slice());
        let ghost lv = line@;
        out.push(line);
        assert(views(out@) =~= views(before).push(lv));
        assert(with_prefix(vt.take(k + 1), prefix@) =~= with_prefix(vt.take(k as int), prefix@).push(
            prefix@ + vt[k as int],
        ));
        k += 1;
    }
    assert(vt.take(texts@.len() as int) =~= vt);
    out
}

/// `key = value`.
fn key_value_exec(key: &[char], value: &[char]) -> (r: Vec<char>)
    ensures
        r@ == key_value(key@, value@),
{
    let mut out = chars_range(key, 0, key.len());
    assert(key@.subrange(0, key@.len() as int) =~= key@);
    out.push(' ');
    out.push('=');
    out.push(' ');
    push_all(&mut out, value);
    assert(out@ =~= key_value(key@, value@));
    out
}

/// `key = {`, the body, and the closing brace (see `keyed_block`).
fn keyed_block_exec(key: &[char], body: &[char], indent: usize) -> (r: Vec<char>)
    ensures
        r@ == keyed_block(key@, body@, indent as nat),
{
    let mut out = chars_range(key, 0, key.len());
    assert(key@.subrange(0, key@.len() as int) =~= key@);
    out.push(' ');
    out.push('=');
    out.push(' ');
    out.push('{');
    out.push('\n');
    if body.len() > 0 {
        push_all(&mut out, body);
        out.push('\n');
    }
    let t = tabs_exec(indent);
    push_all(&mut out, t.as_slice());
    out.push('}');
    assert(out@ =~= keyed_block(key@, body@, indent as nat));
    out
}

/// Whether an entry's value is written as a block (see `is_multiline_value`).
fn is_multiline_value_exec(v: &Value) -> (r: bool)
    ensures
        r == is_multiline_value(view_value(*v)),
{
    match v {
        Value::Scalar(s) => {
            let cs = chars_of(s.as_str());
            color_body_exec(cs.as_slice(), 0).is_some()
        },
        _ => true,
    }
}


/// The text of a value (see `value_text`).
fn value_text_exec(v: &Value, indent: usize, inline: bool, trim_numbers: bool) -> (r: Vec<char>)
    requires
        indent + value_depth(view_value(*v)) + 1 <= usize::MAX,
    ensures
        r@ == value_text(view_value(*v), indent as nat, inline, trim_numbers),
    decreases *v, 0int,
{
    match v {
        Value::Scalar(s) => {
            let cs = chars_of(s.as_str());
            let rs = render_scalar_chars(cs.as_slice(), trim_numbers);
            escape_chars(rs.as_slice())
        },
        Value::Array(items) => {
            let inner = values_inline_exec(items, indent, trim_numbers);
            let mut out: Vec<char> = Vec::new();
            out.push('{');
            out.push(' ');
            push_all(&mut out, inner.as_slice());
            out.push(' ');
            out.push('}');
            assert(out@ =~= seq!['{', ' '] + inner@ + seq![' ', '}']);
            out
        },
        Value::Object(o) => object_text_exec(&o.entries, indent, inline, trim_numbers),
        Value::AnonymousObject(o) => object_text_exec(&o.entries, indent, inline, trim_numbers),
    }
}

/// The items of a list written on one line, separated by spaces.
fn values_inline_exec(items: &Vec<Value>, indent: usize, trim_numbers: bool) -> (r: Vec<char>)
    requires
        indent + values_depth(view_values(items@)) + 2 <= usize::MAX,
    ensures
        r@ == join(values_inline(view_values(items@), indent as nat, trim_numbers), sp()),
    decreases *items, 0int,
{
    let ghost vv = view_values(items@);
    let mut out: Vec<char> = Vec::new();
    let mut i: usize = 0;
    proof {
        lemma_view_values_len(items@);
        assert(vv.take(0) =~= Seq::<SValue>::empty());
    }
    while i < items.len()
        invariant
            i <= items@.len(),
            vv == view_values(items@),
            vv.len() == items@.len(),
            indent + values_depth(vv) + 2 <= usize::MAX,
            out@ == join(values_inline(vv.take(i as int), indent as nat, trim_numbers), sp()),
            values_inline(vv.take(i as int), indent as nat, trim_numbers).len() == i,
        decreases items.len() - i,
    {
        proof {
            lemma_item(items@, i as int);
            assert(vv.take(i + 1).drop_last() =~= vv.take(i as int));
            assert(decreases_to!(*items => items@[i as int]));
        }
        let t = value_text_exec(&items[i], indent, true, trim_numbers);
        proof {
            lemma_join_push(values_inline(vv.take(i as int), indent as nat, trim_numbers), t@, sp());
        }
        if i > 0 {
            out.push(' ');
        }
        push_all(&mut out, t.as_slice());
        proof {
            if i == 0 {
                assert(out@ =~= t@);
            } else {
                assert(out@ =~= join(values_inline(vv.take(i as int), indent as nat, trim_numbers), sp())
                    + sp() + t@);
            }
        }
        i += 1;
    }
    assert(vv.take(items@.len() as int) =~= vv);
    out
}

/// The texts of the entries of an object (see `entries_texts`).
fn entries_texts_exec(es: &Vec<Entry>, indent: usize, inline: bool, trim_numbers: bool) -> (r: Vec<Vec<char>>)
    requires
        indent + entries_depth(view_entries(es@)) + 2 <= usize::MAX,
    ensures
        views(r@) == entries_texts(view_entries(es@), indent as nat, inline, trim_numbers),
    decreases *es, 0int,
{
    let ghost ve = view_entries(es@);
    let mut out: Vec<Vec<char>> = Vec::new();
    let mut i: usize = 0;
    proof {
        lemma_view_entries_len(es@);
        assert(ve.take(0) =~= Seq::<SEntry>::empty());
        assert(views(out@) =~= Seq::<Seq<char>>::empty());
    }
    while i < es.len()
        invariant
            i <= es@.len(),
            ve == view_entries(es@),
            ve.len() == es@.len(),
            indent + entries_depth(ve) + 2 <= usize::MAX,
            views(out@) == entries_texts(ve.take(i as int), indent as nat, inline, trim_numbers),
        decreases es.len() - i,
    {
        proof {
            lemma_entry(es@, i as int);
            assert(ve.take(i + 1).drop_last() =~= ve.take(i as int));
            assert(decreases_to!(*es => es@[i as int]));
        }
        let t = entry_text_exec(&es[i], indent, inline, trim_numbers);
        let ghost before = out@;
        let ghost tv = t@;
        out.push(t);
        assert(views(out@) =~= views(before).push(tv));
        i += 1;
    }
    assert(ve.take(es@.len() as int) =~= ve);
    out
}

/// The text of an object (see `object_text`).
fn object_text_exec(es: &Vec<Entry>, indent: usize, inline: bool, trim_numbers: bool) -> (r: Vec<char>)
    requires
        indent + entries_depth(view_entries(es@)) + 2 <= usize::MAX,
    ensures
        r@ == object_text(view_entries(es@), indent as nat, inline, trim_numbers),
    decreases *es, 1int,
{
    proof {
        lemma_view_entries_len(es@);
    }
    if es.len() == 0 {
        let mut out: Vec<char> = Vec::new();
        out.push('{');
        out.push('}');
        assert(out@ =~= seq!['{', '}']);
        return out;
    }
    let texts = entries_texts_exec(es, indent, inline, trim_numbers);
    if inline {
        let sep = [' '];
        assert(sep@ =~= sp());
        let inner = join_chars(&texts, sep.as_slice());
        let mut out: Vec<char> = Vec::new();
        out.push('{');
        out.push(' ');
        push_all(&mut out, inner.as_slice());
        out.push(' ');
        out.push('}');
        assert(out@ =~= seq!['{', ' '] + inner@ + seq![' ', '}']);
        out
    } else {
        let pre = tabs_exec(indent);
        let lines = prefix_all(&texts, pre.as_slice());
        let nl = ['\n'];
        assert(nl@ =~= lf());
        join_chars(&lines, nl.as_slice())
    }
}

/// The text of an entry (see `entry_text`).
fn entry_text_exec(e: &Entry, indent: usize, inline: bool, trim_numbers: bool) -> (r: Vec<char>)
    requires
        indent + value_depth(view_value(e.value)) + 2 <= usize::MAX,
    ensures
        r@ == entry_text(view_entry(*e), indent as nat, inline, trim_numbers),
    decreases *e, 0int,
{
    let key = chars_of(e.key.as_str());
    if e.metadata.nested_quoted {
        let payload = nested_payload_exec(&e.value, indent + 1, trim_numbers);
        let enc = encode_nested_chars(payload.as_slice());
        return key_value_exec(key.as_slice(), enc.as_slice());
    }
    if !inline && is_multiline_value_exec(&e.value) {
        let body = multiline_value_exec(&e.value, indent + 1, trim_numbers);
        return keyed_block_exec(key.as_slice(), body.as_slice(), indent);
    }
    match &e.value {
        Value::Scalar(text) => {
            let cs = chars_of(text.as_str());
            let canon = canonicalize_quoted_chars(cs.as_slice());
            let norm = normalize_quoted_chars(canon.as_slice());
            let rs = render_entry_scalar_chars(key.as_slice(), norm.as_slice(), trim_numbers);
            let esc = escape_chars(rs.as_slice());
            key_value_exec(key.as_slice(), esc.as_slice())
        },
        _ => {
            let vt = value_text_exec(&e.value, indent + 1, true, trim_numbers);
            key_value_exec(key.as_slice(), vt.as_slice())
        },
    }
}

/// The script inside the quotes of a nested entry (see `nested_payload`).
fn nested_payload_exec(v: &Value, indent: usize, trim_numbers: bool) -> (r: Vec<char>)
    requires
        indent + value_depth(view_value(*v)) + 1 <= usize::MAX,
    ensures
        r@ == nested_payload(view_value(*v), indent as nat, trim_numbers),
    decreases *v, 1int,
{
    let sep = [' '];
    assert(sep@ =~= sp());
    match v {
        Value::Object(o) => {
            let texts = entries_texts_exec(&o.entries, indent, true, trim_numbers);
            join_chars(&texts, sep.as_slice())
        },
        Value::AnonymousObject(o) => {
            let texts = entries_texts_exec(&o.entries, indent, true, trim_numbers);
            join_chars(&texts, sep.as_slice())
        },
        _ => value_text_exec(v, indent, true, trim_numbers),
    }
}

/// The body of a keyed block (see `multiline_value`).
fn multiline_value_exec(v: &Value, indent: usize, trim_numbers: bool) -> (r: Vec<char>)
    requires
        indent + value_depth(view_value(*v)) + 1 <= usize::MAX,
    ensures
        r@ == multiline_value(view_value(*v), indent as nat, trim_numbers),
    decreases *v, 1int,
{
    match v {
        Value::Scalar(s) => {
            let cs = chars_of(s.as_str());
            match color_body_exec(cs.as_slice(), indent) {
                Some(b) => b,
                None => Vec::new(),
            }
        },
        Value::Object(o) => {
            proof {
                lemma_view_entries_len(o.entries@);
            }
            if o.entries.len() == 0 {
                Vec::new()
            } else {
                object_text_exec(&o.entries, indent, false, trim_numbers)
            }
        },
        Value::AnonymousObject(o) => {
            proof {
                lemma_view_entries_len(o.entries@);
            }
            if o.entries.len() == 0 {
                Vec::new()
            } else {
                object_text_exec(&o.entries, indent, false, trim_numbers)
            }
        },
        Value::Array(items) => {
            proof {
                lemma_view_values_len(items@);
            }
            if items.len() == 0 {
                Vec::new()
            } else {
                array_block_exec(items, indent, trim_numbers)
            }
        },
    }
}

/// The lines of a list inside a block (see `array_block`).
fn array_block_exec(items: &Vec<Value>, indent: usize, trim_numbers: bool) -> (r: Vec<char>)
    requires
        indent + values_depth(view_values(items@)) + 2 <= usize::MAX,
    ensures
        r@ == array_block(view_values(items@), indent as nat, trim_numbers),
    decreases *items, 1int,
{
    let ghost vv = view_values(items@);
    proof {
        lemma_view_values_len(items@);
    }
    if single_expression_exec(items) {
        let mut parts: Vec<Vec<char>> = Vec::new();
        let mut i: usize = 0;
        while i < items.len()
            invariant
                i <= items@.len(),
                vv == view_values(items@),
                vv.len() == items@.len(),
                views(parts@) == expression_parts(vv.take(i as int), trim_numbers),
            decreases items.len() - i,
        {
            proof {
                lemma_item(items@, i as int);
            }
            let t = scalar_chars(&items[i]);
            let rs = render_scalar_chars(t.as_slice(), trim_numbers);
            let ghost before = parts@;
            let ghost rv = rs@;
            parts.push(rs);
            assert(views(parts@) =~= views(before).push(rv));
            assert(expression_parts(vv.take(i + 1), trim_numbers) =~= expression_parts(
                vv.take(i as int),
                trim_numbers,
            ).push(rv));
            i += 1;
        }
        assert(vv.take(items@.len() as int) =~= vv);
        let sep = [' '];
        assert(sep@ =~= sp());
        let joined = join_chars(&parts, sep.as_slice());
        let mut out = tabs_exec(indent);
        push_all(&mut out, joined.as_slice());
        return out;
    }
    let mut chunks: Vec<Vec<char>> = Vec::new();
    let mut i: usize = 0;
    proof {
        assert(views(chunks@) + array_chunks(vv, 0, indent as nat, trim_numbers) =~= array_chunks(
            vv,
            0,
            indent as nat,
            trim_numbers,
        ));
    }
    while i < items.len()
        invariant
            i <= items@.len(),
            vv == view_values(items@),
            vv.len() == items@.len(),
            indent + values_depth(vv) + 2 <= usize::MAX,
            views(chunks@) + array_chunks(vv, i as int, indent as nat, trim_numbers) == array_chunks(
                vv,
                0,
                indent as nat,
                trim_numbers,
            ),
        decreases items.len() - i,
    {
        let (mut step, k) = array_step_exec(items, i, indent, trim_numbers);
        let ghost before = chunks@;
        let ghost sv = views(step@);
        chunks.append(&mut step);
        proof {
            assert(views(chunks@) =~= views(before) + sv);
            assert(views(chunks@) + array_chunks(vv, (i + k) as int, indent as nat, trim_numbers)
                =~= views(before) + (sv + array_chunks(vv, (i + k) as int, indent as nat, trim_numbers)));
        }
        i = i + k;
    }
    let nl = ['\n'];
    assert(nl@ =~= lf());
    assert(views(chunks@) =~= array_chunks(vv, 0, indent as nat, trim_numbers));
    join_chars(&chunks, nl.as_slice())
}

/// The lines written for the item at `i` of a list inside a block, and how many items they
/// take (see `array_chunks`).
fn array_step_exec(items: &Vec<Value>, i: usize, indent: usize, trim_numbers: bool) -> (r: (Vec<Vec<char>>, usize))
    requires
        i < items@.len(),
        indent + values_depth(view_values(items@)) + 2 <= usize::MAX,
    ensures
        1 <= r.1,
        i + r.1 <= items@.len(),
        views(r.0@) + array_chunks(view_values(items@), i + r.1, indent as nat, trim_numbers)
            == array_chunks(view_values(items@), i as int, indent as nat, trim_numbers),
    decreases *items, 0int,
{
    let ghost vv = view_values(items@);
    proof {
        lemma_item(items@, i as int);
        assert(decreases_to!(*items => items@[i as int]));
    }
    let pre = tabs_exec(indent);
    if then_equals_exec(items, i) {
        proof {
            lemma_item(items@, i + 2);
            assert(decreases_to!(*items => items@[i + 2]));
        }
        let n = items.len();
        assert(i + 2 < n);
        let p = scalar_chars(&items[i]);
        let (a, b) = trim_bounds(p.as_slice(), 0, p.len());
        assert(p@.subrange(0, p@.len() as int) =~= p@);
        let pt = chars_range(p.as_slice(), a, b);
        let blk = prefixed_block_exec(pt.as_slice(), &items[i + 2], indent, trim_numbers);
        return (block_chunks(blk), 3);
    }
    if attached_exec(items, i) {
        let n = items.len();
        assert(i + 1 < n);
        proof {
            lemma_item(items@, i + 1);
        }
        let left = scalar_chars(&items[i]);
        let right = scalar_chars(&items[i + 1]);
        let tail = chars_range(right.as_slice(), 1, right.len());
        assert(tail@ =~= right@.skip(1));
        let rt = render_scalar_chars(tail.as_slice(), trim_numbers);
        let mut line = chars_range(pre.as_slice(), 0, pre.len());
        assert(pre@.subrange(0, pre@.len() as int) =~= pre@);
        push_all(&mut line, left.as_slice());
        line.push(' ');
        line.push(right[0]);
        line.push(' ');
        push_all(&mut line, rt.as_slice());
        assert(line@ =~= attached_line(vv, i as int, tabs(indent as nat), trim_numbers));
        let mut out: Vec<Vec<char>> = Vec::new();
        let ghost lv = line@;
        out.push(line);
        assert(views(out@) =~= seq![lv]);
        return (out, 2);
    }
    if equals_exec(items, i) {
        let p = scalar_chars(&items[i]);
        let ep = equals_prefix_exec(p.as_slice());
        let n = items.len();
        assert(i + 1 < n);
        if ep.len() > 0 {
            proof {
                lemma_item(items@, i + 1);
                assert(decreases_to!(*items => items@[i + 1]));
            }
            let blk = prefixed_block_exec(ep.as_slice(), &items[i + 1], indent, trim_numbers);
            return (block_chunks(blk), 2);
        }
    } else if matches!(items[i], Value::Scalar(_)) {
        let t = scalar_chars(&items[i]);
        if contains_char(t.as_slice(), ' ') {
            match split_list_item_exec(&items[i], pre.as_slice()) {
                Some(b) => {
                    return (block_chunks(b), 1);
                },
                None => {},
            }
        }
    } else {
        let blk = bare_block_exec(&items[i], indent, trim_numbers);
        return (block_chunks(blk), 1);
    }
    let t = value_text_exec(&items[i], indent, true, trim_numbers);
    let mut line = chars_range(pre.as_slice(), 0, pre.len());
    assert(pre@.subrange(0, pre@.len() as int) =~= pre@);
    push_all(&mut line, t.as_slice());
    let mut out: Vec<Vec<char>> = Vec::new();
    let ghost lv = line@;
    out.push(line);
    assert(views(out@) =~= seq![lv]);
    (out, 1)
}

/// `prefix = {`, the block's lines one level deeper, and `}` (see `prefixed_block`).
fn prefixed_block_exec(prefix_text: &[char], composite: &Value, indent: usize, trim_numbers: bool) -> (r: Vec<char>)
    requires
        indent + value_depth(view_value(*composite)) + 2 <= usize::MAX,
    ensures
        r@ == prefixed_block(prefix_text@, view_value(*composite), indent as nat, trim_numbers),
    decreases *composite, 2int,
{
    let parts = split_ws_exec(prefix_text);
    let ghost vp = views(parts@);
    let ghost pv = view_value(*composite);
    let ghost split_s = vp.len() >= 2 && (forall|m: int|
        0 <= m < vp.len() ==> is_simple_identifier(#[trigger] vp[m]));
    let ghost leading_s = if split_s {
        with_prefix(vp.drop_last(), tabs(indent as nat))
    } else {
        Seq::empty()
    };
    let ghost key_s = if split_s {
        vp.last()
    } else {
        prefix_text@
    };
    let ghost body_s = match pv {
        SValue::Object(es) => with_prefix(
            entries_texts(es, indent as nat + 1, false, trim_numbers),
            tabs(indent as nat + 1),
        ),
        SValue::AnonymousObject(es) => with_prefix(
            entries_texts(es, indent as nat + 1, false, trim_numbers),
            tabs(indent as nat + 1),
        ),
        SValue::Array(its) => block_chunk(array_block(its, indent as nat + 1, trim_numbers)),
        SValue::Scalar(_) => Seq::empty(),
    };
    let mut split = parts.len() >= 2;
    if split {
        let mut k: usize = 0;
        while k < parts.len()
            invariant
                k <= parts@.len(),
                vp == views(parts@),
                split == (forall|m: int| 0 <= m < k ==> is_simple_identifier(#[trigger] vp[m])),
            decreases parts.len() - k,
        {
            assert(vp[k as int] == parts@[k as int]@);
            if !is_simple_identifier_exec(parts[k].as_slice()) {
                split = false;
            }
            k += 1;
        }
    }
    let pre = tabs_exec(indent);
    let mut lines: Vec<Vec<char>> = Vec::new();
    let open_key: Vec<char>;
    if split {
        let mut k: usize = 0;
        while k + 1 < parts.len()
            invariant
                k + 1 <= parts@.len(),
                vp == views(parts@),
                views(lines@) == with_prefix(vp.drop_last().take(k as int), pre@),
            decreases parts.len() - k,
        {
            let ghost before = lines@;
            let mut line = chars_range(pre.as_slice(), 0, pre.len());
            assert(pre@.subrange(0, pre@.len() as int) =~= pre@);
            push_all(&mut line, parts[k].as_slice());
            let ghost lv = line@;
            lines.push(line);
            assert(views(lines@) =~= views(before).push(lv));
            assert(with_prefix(vp.drop_last().take(k + 1), pre@) =~= with_prefix(
                vp.drop_last().take(k as int),
                pre@,
            ).push(pre@ + vp[k as int]));
            k += 1;
        }
        assert(vp.drop_last().take(k as int) =~= vp.drop_last());
        let last = parts.len() - 1;
        open_key = chars_range(parts[last].as_slice(), 0, parts[last].len());
        assert(parts@[last as int]@.subrange(0, parts@[last as int]@.len() as int) =~= vp.last());
    } else {
        open_key = chars_range(prefix_text, 0, prefix_text.len());
        assert(prefix_text@.subrange(0, prefix_text@.len() as int) =~= prefix_text@);
        assert(views(lines@) =~= Seq::<Seq<char>>::empty());
    }
    let mut open_line = chars_range(pre.as_slice(), 0, pre.len());
    assert(pre@.subrange(0, pre@.len() as int) =~= pre@);
    push_all(&mut open_line, open_key.as_slice());
    open_line.push(' ');
    open_line.push('=');
    open_line.push(' ');
    open_line.push('{');
    let ghost leading = views(lines@);
    let ghost ol = open_line@;
    assert(split == split_s);
    assert(leading == leading_s);
    assert(open_key@ == key_s);
    assert(ol =~= tabs(indent as nat) + key_s + seq![' ', '=', ' ', '{']);
    lines.push(open_line);
    assert(views(lines@) =~= leading.push(ol));
    let mut body: Vec<Vec<char>> = match composite {
        Value::Object(o) => {
            let texts = entries_texts_exec(&o.entries, indent + 1, false, trim_numbers);
            let child = tabs_exec(indent + 1);
            prefix_all(&texts, child.as_slice())
        },
        Value::AnonymousObject(o) => {
            let texts = entries_texts_exec(&o.entries, indent + 1, false, trim_numbers);
            let child = tabs_exec(indent + 1);
            prefix_all(&texts, child.as_slice())
        },
        Value::Array(its) => {
            let blk = array_block_exec(its, indent + 1, trim_numbers);
            block_chunks(blk)
        },
        Value::Scalar(_) => {
            let e: Vec<Vec<char>> = Vec::new();
            assert(views(e@) =~= Seq::<Seq<char>>::empty());
            e
        },
    };
    let mut close = chars_range(pre.as_slice(), 0, pre.len());
    close.push('}');
    let ghost bv = views(body@);
    assert(bv == body_s);
    let ghost cv = close@;
    assert(cv =~= tabs(indent as nat) + seq!['}']);
    body.push(close);
    assert(views(body@) =~= bv.push(cv));
    let ghost head = views(lines@);
    let ghost tailv = views(body@);
    lines.append(&mut body);
    assert(views(lines@) =~= head + tailv);
    let nl = ['\n'];
    assert(nl@ =~= lf());
    join_chars(&lines, nl.as_slice())
}

/// A block item written as `{`, its lines, and `}` (see `bare_block`).
fn bare_block_exec(item: &Value, indent: usize, trim_numbers: bool) -> (r: Vec<char>)
    requires
        indent + value_depth(view_value(*item)) + 2 <= usize::MAX,
    ensures
        r@ == bare_block(view_value(*item), indent as nat, trim_numbers),
    decreases *item, 2int,
{
    let ghost body_s = match view_value(*item) {
        SValue::Object(es) => with_prefix(
            entries_texts(es, indent as nat + 1, false, trim_numbers),
            tabs(indent as nat + 1),
        ),
        SValue::AnonymousObject(es) => with_prefix(
            entries_texts(es, indent as nat + 1, false, trim_numbers),
            tabs(indent as nat + 1),
        ),
        SValue::Array(its) => block_chunk(array_block(its, indent as nat + 1, trim_numbers)),
        SValue::Scalar(_) => Seq::empty(),
    };
    let pre = tabs_exec(indent);
    let mut lines: Vec<Vec<char>> = Vec::new();
    let mut open_line = chars_range(pre.as_slice(), 0, pre.len());
    assert(pre@.subrange(0, pre@.len() as int) =~= pre@);
    open_line.push('{');
    let ghost ol = open_line@;
    lines.push(open_line);
    assert(views(lines@) =~= seq![ol]);
    let mut body: Vec<Vec<char>> = match item {
        Value::Object(o) => {
            let texts = entries_texts_exec(&o.entries, indent + 1, false, trim_numbers);
            let child = tabs_exec(indent + 1);
            prefix_all(&texts, child.as_slice())
        },
        Value::AnonymousObject(o) => {
            let texts = entries_texts_exec(&o.entries, indent + 1, false, trim_numbers);
            let child = tabs_exec(indent + 1);
            prefix_all(&texts, child.as_slice())
        },
        Value::Array(its) => {
            let blk = array_block_exec(its, indent + 1, trim_numbers);
            block_chunks(blk)
        },
        Value::Scalar(_) => {
            let e: Vec<Vec<char>> = Vec::new();
            assert(views(e@) =~= Seq::<Seq<char>>::empty());
            e
        },
    };
    let mut close = chars_range(pre.as_slice(), 0, pre.len());
    close.push('}');
    let ghost bv = views(body@);
    assert(bv == body_s);
    assert(ol =~= tabs(indent as nat) + seq!['{']);
    assert(close@ =~= tabs(indent as nat) + seq!['}']);
    let ghost cv = close@;
    body.push(close);
    assert(views(body@) =~= bv.push(cv));
    let ghost head = views(lines@);
    let ghost tailv = views(body@);
    lines.append(&mut body);
    assert(views(lines@) =~= head + tailv);
    let nl = ['\n'];
    assert(nl@ =~= lf());
    join_chars(&lines, nl.as_slice())
}


/// Whether blocks nest no deeper than `limit` inside a value.
pub fn depth_within(v: &Value, limit: usize) -> (r: bool)
    ensures
        r == (value_depth(view_value(*v)) <= limit),
    decreases *v,
{
    match v {
        Value::Scalar(_) => true,
        Value::Array(items) => {
            if limit == 0 {
                return false;
            }
            let ghost vv = view_values(items@);
            proof {
                lemma_view_values_len(items@);
                lemma_values_depth_bound(vv, (limit - 1) as nat);
            }
            let mut i: usize = 0;
            while i < items.len()
                invariant
                    i <= items@.len(),
                    vv == view_values(items@),
                    vv.len() == items@.len(),
                    *v == Value::Array(*items),
                    limit > 0,
                    forall|k: int| 0 <= k < i ==> value_depth(#[trigger] vv[k]) <= limit - 1,
                decreases items.len() - i,
            {
                proof {
                    lemma_item(items@, i as int);
                    assert(decreases_to!(*v => items@[i as int]));
                }
                if !depth_within(&items[i], limit - 1) {
                    return false;
                }
                i += 1;
            }
            true
        },
        Value::Object(o) => entries_depth_within(v, &o.entries, limit),
        Value::AnonymousObject(o) => entries_depth_within(v, &o.entries, limit),
    }
}

/// Whether the entry values of an object nest no deeper than `limit - 1`.
fn entries_depth_within(v: &Value, es: &Vec<Entry>, limit: usize) -> (r: bool)
    requires
        *v == Value::Object(ObjectNode { entries: *es }) || *v == Value::AnonymousObject(
            ObjectNode { entries: *es },
        ),
    ensures
        r == (value_depth(view_value(*v)) <= limit),
    decreases *v, 0int,
{
    if limit == 0 {
        return false;
    }
    let ghost ve = view_entries(es@);
    proof {
        lemma_view_entries_len(es@);
        lemma_entries_depth_bound(ve, (limit - 1) as nat);
    }
    let mut i: usize = 0;
    while i < es.len()
        invariant
            i <= es@.len(),
            ve == view_entries(es@),
            ve.len() == es@.len(),
            *v == Value::Object(ObjectNode { entries: *es }) || *v == Value::AnonymousObject(
                ObjectNode { entries: *es },
            ),
            limit > 0,
            forall|k: int| 0 <= k < i ==> value_depth(#[trigger] ve[k].value) <= limit - 1,
        decreases es.len() - i,
    {
        proof {
            lemma_entry(es@, i as int);
            assert(decreases_to!(*v => es@[i as int].value));
        }
        if !depth_within(&es[i].value, limit - 1) {
            return false;
        }
        i += 1;
    }
    true
}

/// Writes a document's root back as script text (see `document_text`): a keyed root as its
/// entries one per line, blocks indented by tabs, scalars escaped and decimal numbers
/// trimmed.  Fails only on a root nested deeper than `usize` can count.
pub fn generate_document(document: &Document) -> (r: Result<String, Hoi4ParserError>)
    ensures
        match r {
            Ok(s) => value_depth(document.root_view()) < usize::MAX && s@ == document_text(
                document.root_view(),
            ),
            Err(e) => value_depth(document.root_view()) >= usize::MAX && (e matches Hoi4ParserError::Generate {
                message,
            } && message@ == "文档嵌套过深，无法还原"@),
        },
{
    let root = document.root();
    if !depth_within(root, usize::MAX - 1) {
        return Err(Hoi4ParserError::generate_error("文档嵌套过深，无法还原"));
    }
    let out = match root {
        Value::Object(o) => {
            let texts = entries_texts_exec(&o.entries, 0, false, true);
            let nl = ['\n'];
            assert(nl@ =~= lf());
            join_chars(&texts, nl.as_slice())
        },
        Value::AnonymousObject(o) => object_text_exec(&o.entries, 0, false, true),
        _ => value_text_exec(root, 0, true, true),
    };
    Ok(string_of(out.as_slice()))
}

} // verus!

use vstd::prelude::*;

use crate::ast::{
    lemma_view_entries_index, lemma_view_entries_len, lemma_view_values_map, lemma_view_entries_map, lemma_view_entries_push,
    lemma_view_values_index, lemma_view_values_len, lemma_view_values_push, plain_meta,
    view_entries, view_entry, view_meta, view_value, view_values, Entry, EntryMetadata,
    ObjectNode, SEntry, SMeta, SValue, Value,
};
use crate::compat::{normalize_chars, spec_normalize};
use crate::error::Hoi4ParserError;
use crate::nested::{decode_nested_chars, spec_decode_nested};
use crate::parse_spec::{
    quote_count, token_debug_text, token_quotes, quotes_from, lemma_quotes_from_mono, is_op_text, is_word, word_text, skip_newlines, expect_key, expect_equals_or_operator, append_part, key_value_boundary, implicit_operator_boundary, braced_scalar_loop, braced_scalar_block, scalar_loop, scalar_sequence, should_attempt_nested, BraceKind, classify_braced, SEvent, single_line_items, QuoteState, quote_step, quote_scan, start_quote_state, has_unclosed_quote, join_space, merge_equals_part, MultiState, multi_step, multi_fold, multi_line_items, merge_split_quoted, list_items, is_color_keyword, all_plain_scalars, scalar_texts, collapse_color, duplicate_meta, hex_digit, hex_upper, hex_chars, key_count, with_duplicate_meta, nested_script, entries_loop, parse_entry, plain_entry_meta, parse_value, braced_value, array_value, array_loop, array_item_value, parse_document, lemma_scalar_sequence_quotes, lemma_decode_quotes, lemma_tokenize_quotes, lemma_operator_quotes,
};
use crate::text::{
    char_count, chars_of, contains_char, contains_exec, debug_str, contains_seq, ends_with, join, lemma_join_push, occurs_at_exec,
    starts_with, string_of,
};
use crate::tokenizer::{spec_tokenize, tokenize_chars, view_token, view_tokens, SToken, Token};

verus! {

/// What a list block collects while it is read.
enum ArrayEvent {
    Scalar(Vec<char>),
    Equals,
    Nested(Value),
    Newline,
}

spec fn view_event(e: ArrayEvent) -> SEvent {
    match e {
        ArrayEvent::Scalar(s) => SEvent::Scalar(s@),
        ArrayEvent::Equals => SEvent::Equals,
        ArrayEvent::Nested(v) => SEvent::Nested(view_value(v)),
        ArrayEvent::Newline => SEvent::Newline,
    }
}

spec fn view_events(es: Seq<ArrayEvent>) -> Seq<SEvent> {
    es.map_values(|e: ArrayEvent| view_event(e))
}

spec fn view_parts(ps: Seq<Vec<char>>) -> Seq<Seq<char>> {
    ps.map_values(|p: Vec<char>| p@)
}

/// `token` appended to `out`, after a space when `out` already has a part.
fn append_token_with_space(out: &mut Vec<char>, has_parts: &mut bool, token: &[char])
    ensures
        final(out)@ == append_part(old(out)@, *old(has_parts), token@),
        *final(has_parts),
{
    if *has_parts {
        out.push(' ');
    } else {
        *has_parts = true;
    }
    let ghost mid = out@;
    let mut i: usize = 0;
    while i < token.len()
        invariant
            i <= token.len(),
            out@ == mid + token@.take(i as int),
        decreases token.len() - i,
    {
        out.push(token[i]);
        assert(mid + token@.take(i + 1) =~= mid + token@.take(i as int) + seq![token@[i as int]]);
        i += 1;
    }
    assert(token@.take(token.len() as int) =~= token@);
    assert(seq![' '] + token@ =~= seq![' '] + token@);
    assert(mid + token@ =~= append_part(old(out)@, *old(has_parts), token@));
}

fn scan_quote_state_char(ch: char, in_ascii: &mut bool, escaped: &mut bool, in_curly: &mut bool)
    ensures
        quote_step(
            QuoteState { in_ascii: *old(in_ascii), escaped: *old(escaped), in_curly: *old(in_curly) },
            ch,
        ) == (QuoteState { in_ascii: *final(in_ascii), escaped: *final(escaped), in_curly: *final(in_curly) }),
{
    if *in_ascii {
        if *escaped {
            *escaped = false;
            return;
        }
        if ch == '\\' {
            *escaped = true;
            return;
        }
        if ch == '"' {
            *in_ascii = false;
        }
        return;
    }
    if *in_curly {
        if ch == '\u{201d}' || ch == '\u{2019}' {
            *in_curly = false;
        }
        return;
    }
    if ch == '"' {
        *in_ascii = true;
    } else if ch == '\u{201c}' || ch == '\u{2018}' {
        *in_curly = true;
    }
}

proof fn lemma_quote_scan_append(st: QuoteState, a: Seq<char>, b: Seq<char>)
    ensures
        quote_scan(st, a + b) == quote_scan(quote_scan(st, a), b),
    decreases b.len(),
{
    if b.len() == 0 {
        assert(a + b =~= a);
    } else {
        lemma_quote_scan_append(st, a, b.drop_last());
        assert((a + b).drop_last() =~= a + b.drop_last());
    }
}

/// Scans `cs` from the state `st`.
fn scan_chars(cs: &[char], in_ascii: &mut bool, escaped: &mut bool, in_curly: &mut bool)
    ensures
        quote_scan(
            QuoteState { in_ascii: *old(in_ascii), escaped: *old(escaped), in_curly: *old(in_curly) },
            cs@,
        ) == (QuoteState { in_ascii: *final(in_ascii), escaped: *final(escaped), in_curly: *final(in_curly) }),
{
    let ghost st0 = QuoteState { in_ascii: *in_ascii, escaped: *escaped, in_curly: *in_curly };
    let mut i: usize = 0;
    while i < cs.len()
        invariant
            i <= cs.len(),
            quote_scan(st0, cs@.take(i as int)) == (QuoteState {
                in_ascii: *in_ascii,
                escaped: *escaped,
                in_curly: *in_curly,
            }),
        decreases cs.len() - i,
    {
        scan_quote_state_char(cs[i], in_ascii, escaped, in_curly);
        assert(cs@.take(i + 1).drop_last() =~= cs@.take(i as int));
        i += 1;
    }
    assert(cs@.take(cs.len() as int) =~= cs@);
}

/// Whether `s` ends inside a quote (see `has_unclosed_quote`).
fn line_has_unclosed_quote_like(s: &[char]) -> (r: bool)
    ensures
        r == has_unclosed_quote(s@),
{
    let mut in_ascii = false;
    let mut escaped = false;
    let mut in_curly = false;
    scan_chars(s, &mut in_ascii, &mut escaped, &mut in_curly);
    in_ascii || in_curly
}

/// Whether the parts, joined with spaces, end inside a quote.
fn line_has_unclosed_quote_like_parts(parts: &Vec<Vec<char>>) -> (r: bool)
    ensures
        r == has_unclosed_quote(join_space(view_parts(parts@))),
{
    let mut in_ascii = false;
    let mut escaped = false;
    let mut in_curly = false;
    let ghost vp = view_parts(parts@);
    let mut idx: usize = 0;
    while idx < parts.len()
        invariant
            idx <= parts@.len(),
            vp == view_parts(parts@),
            quote_scan(start_quote_state(), join_space(vp.take(idx as int))) == (QuoteState {
                in_ascii,
                escaped,
                in_curly,
            }),
        decreases parts.len() - idx,
    {
        let ghost before = join_space(vp.take(idx as int));
        proof {
            assert(vp.take(idx + 1) =~= vp.take(idx as int).push(parts@[idx as int]@));
            lemma_join_push(vp.take(idx as int), parts@[idx as int]@, seq![' ']);
        }
        if idx > 0 {
            scan_quote_state_char(' ', &mut in_ascii, &mut escaped, &mut in_curly);
            proof {
                lemma_quote_scan_append(start_quote_state(), before, seq![' ']);
                assert((before + seq![' ']).drop_last() =~= before);
            }
        }
        scan_chars(parts[idx].as_slice(), &mut in_ascii, &mut escaped, &mut in_curly);
        proof {
            if idx > 0 {
                lemma_quote_scan_append(start_quote_state(), before + seq![' '], parts@[idx as int]@);
            } else {
                assert(before =~= Seq::<char>::empty());
                assert(Seq::<char>::empty() + parts@[idx as int]@ =~= parts@[idx as int]@);
                lemma_quote_scan_append(start_quote_state(), before, parts@[idx as int]@);
            }
        }
        idx += 1;
    }
    assert(vp.take(parts@.len() as int) =~= vp);
    in_ascii || in_curly
}

fn joined_line_has_unclosed_quote_like(parts: &Vec<Vec<char>>) -> (r: bool)
    ensures
        r == has_unclosed_quote(join_space(view_parts(parts@))),
{
    line_has_unclosed_quote_like_parts(parts)
}

/// The parts joined with single spaces.
fn join_parts_with_space(parts: &Vec<Vec<char>>) -> (r: Vec<char>)
    ensures
        r@ == join_space(view_parts(parts@)),
{
    let ghost vp = view_parts(parts@);
    let mut out: Vec<char> = Vec::new();
    let mut has = false;
    let mut idx: usize = 0;
    while idx < parts.len()
        invariant
            idx <= parts@.len(),
            vp == view_parts(parts@),
            out@ == join_space(vp.take(idx as int)),
            has == (idx > 0),
        decreases parts.len() - idx,
    {
        proof {
            assert(vp.take(idx + 1) =~= vp.take(idx as int).push(parts@[idx as int]@));
            lemma_join_push(vp.take(idx as int), parts@[idx as int]@, seq![' ']);
            if idx == 0 {
                assert(Seq::<char>::empty() + parts@[idx as int]@ =~= parts@[idx as int]@);
            }
        }
        append_token_with_space(&mut out, &mut has, parts[idx].as_slice());
        idx += 1;
    }
    assert(vp.take(parts@.len() as int) =~= vp);
    out
}

/// A `=` joins a preceding sign part, or becomes a part of its own.
fn push_or_merge_equals(parts: &mut Vec<Vec<char>>)
    ensures
        view_parts(final(parts)@) == merge_equals_part(view_parts(old(parts)@)),
{
    let n = parts.len();
    if n > 0 {
        let last = &parts[n - 1];
        let is_op = last.len() == 1 && (last[0] == '>' || last[0] == '<' || last[0] == '!' || last[0]
            == '=');
        proof {
            assert(view_parts(parts@).last() == parts@[n - 1]@);
            if is_op_text(parts@[n - 1]@) {
                assert(parts@[n - 1]@.len() == 1);
            }
            if is_op {
                assert(last@ =~= seq![last@[0]]);
            }
        }
        if is_op {
            let mut l = parts.pop().unwrap();
            let ghost prev = parts@;
            l.push('=');
            parts.push(l);
            assert(view_parts(parts@) =~= merge_equals_part(view_parts(old(parts)@)));
            return;
        }
    }
    let eq = vec!['='];
    assert(eq@ =~= seq!['=']);
    parts.push(eq);
    assert(view_parts(parts@) =~= view_parts(old(parts)@).push(seq!['=']));
    proof {
        if n > 0 {
            let l = old(parts)@[n - 1]@;
            assert(view_parts(old(parts)@).last() == l);
            if is_op_text(l) {
                assert(l.len() == 1 && (l[0] == '>' || l[0] == '<' || l[0] == '!' || l[0] == '='));
            }
        }
    }
    assert(view_parts(parts@) =~= merge_equals_part(view_parts(old(parts)@)));
}

/// A list on one line: each word, sign and nested value is an item.
fn build_singleline_array_items(events: Vec<ArrayEvent>) -> (r: Vec<Value>)
    ensures
        view_values(r@) == single_line_items(view_events(events@)),
{
    let ghost evs = view_events(events@);
    let mut items: Vec<Value> = Vec::new();
    for event in it: events
        invariant
            evs == view_events(it.seq()),
            view_values(items@) == single_line_items(evs.take(it.index() as int)),
    {
        let ghost k = it.index();
        let ghost prev = items@;
        proof {
            assert(evs.take(k + 1).drop_last() =~= evs.take(k as int));
            assert(evs[k as int] == view_event(event));
            assert(evs.take(k + 1).last() == evs[k as int]);
        }
        match event {
            ArrayEvent::Scalar(s) => {
                let v = Value::Scalar(string_of(s.as_slice()));
                items.push(v);
                proof { lemma_view_values_push(prev, v); }
                assert(view_values(items@) == single_line_items(evs.take(k + 1)));
            },
            ArrayEvent::Equals => {
                let eqs: &[char] = &['='];
                let sv = string_of(eqs);
                assert(sv@ =~= seq!['=']);
                let v = Value::Scalar(sv);
                items.push(v);
                proof { lemma_view_values_push(prev, v); }
                assert(view_values(items@) == single_line_items(evs.take(k + 1)));
            },
            ArrayEvent::Nested(v) => {
                items.push(v);
                proof { lemma_view_values_push(prev, v); }
                assert(view_values(items@) == single_line_items(evs.take(k + 1)));
            },
            ArrayEvent::Newline => {
                assert(view_values(items@) == single_line_items(evs.take(k + 1)));
            },
        }
    }
    assert(evs.take(evs.len() as int) =~= evs);
    items
}

/// A list over several lines (see `multi_line_items`).
fn build_multiline_array_items(events: Vec<ArrayEvent>) -> (r: Vec<Value>)
    ensures
        view_values(r@) == multi_line_items(view_events(events@)),
{
    let ghost evs = view_events(events@);
    let mut items: Vec<Value> = Vec::new();
    let mut line_parts: Vec<Vec<char>> = Vec::new();
    assert(view_parts(line_parts@) =~= Seq::<Seq<char>>::empty());
    assert(evs.take(0) =~= Seq::<SEvent>::empty());
    for event in it: events
        invariant
            evs == view_events(it.seq()),
            multi_fold(evs.take(it.index() as int)) == (MultiState {
                items: view_values(items@),
                parts: view_parts(line_parts@),
            }),
    {
        let ghost k = it.index();
        let ghost prev_items = items@;
        proof {
            assert(evs.take(k + 1).drop_last() =~= evs.take(k as int));
            assert(evs[k as int] == view_event(event));
            assert(evs.take(k + 1).last() == evs[k as int]);
        }
        match event {
            ArrayEvent::Newline => {
                if line_parts.len() > 0 && !joined_line_has_unclosed_quote_like(&line_parts) {
                    let joined = join_parts_with_space(&line_parts);
                    let v = Value::Scalar(string_of(joined.as_slice()));
                    items.push(v);
                    proof { lemma_view_values_push(prev_items, v); }
                    line_parts = Vec::new();
                    assert(view_parts(line_parts@) =~= Seq::<Seq<char>>::empty());
                }
            },
            ArrayEvent::Scalar(s) => {
                let ghost prev_parts = line_parts@;
                line_parts.push(s);
                assert(view_parts(line_parts@) =~= view_parts(prev_parts).push(s@));
            },
            ArrayEvent::Equals => {
                push_or_merge_equals(&mut line_parts);
            },
            ArrayEvent::Nested(v) => {
                if line_parts.len() > 0 {
                    let joined = join_parts_with_space(&line_parts);
                    let j = Value::Scalar(string_of(joined.as_slice()));
                    items.push(j);
                    proof { lemma_view_values_push(prev_items, j); }
                    line_parts = Vec::new();
                    assert(view_parts(line_parts@) =~= Seq::<Seq<char>>::empty());
                }
                let ghost mid = items@;
                items.push(v);
                proof { lemma_view_values_push(mid, v); }
            },
        }
    }
    assert(evs.take(evs.len() as int) =~= evs);
    if line_parts.len() > 0 {
        let joined = join_parts_with_space(&line_parts);
        let v = Value::Scalar(string_of(joined.as_slice()));
        let ghost prev_items = items@;
        items.push(v);
        proof { lemma_view_values_push(prev_items, v); }
    }
    items
}

/// Joins adjacent scalars while the earlier one ends inside a quote.
fn merge_adjacent_split_quoted_scalars(items: Vec<Value>) -> (r: Vec<Value>)
    ensures
        view_values(r@) == merge_split_quoted(view_values(items@)),
{
    let ghost vs = view_values(items@);
    proof {
        lemma_view_values_map(items@);
    }
    let mut merged: Vec<Value> = Vec::new();
    assert(vs.take(0) =~= Seq::<SValue>::empty());
    for item in it: items
        invariant
            vs == it.seq().map_values(|v: Value| view_value(v)),
            view_values(merged@) == merge_split_quoted(vs.take(it.index() as int)),
    {
        let ghost k = it.index();
        let ghost prev = merged@;
        proof {
            assert(vs.take(k + 1).drop_last() =~= vs.take(k as int));
            assert(vs.take(k + 1).last() == view_value(item));
            lemma_view_values_len(merged@);
        }
        let n = merged.len();
        let should_merge = match &item {
            Value::Scalar(_) => n > 0 && match &merged[n - 1] {
                Value::Scalar(last_text) => {
                    let lc = chars_of(last_text.as_str());
                    line_has_unclosed_quote_like(lc.as_slice())
                },
                _ => false,
            },
            _ => false,
        };
        proof {
            if n > 0 {
                lemma_view_values_index(merged@, n - 1);
            }
        }
        if should_merge {
            let last = merged.pop().unwrap();
            let ghost popped = merged@;
            match (last, &item) {
                (Value::Scalar(last_text), Value::Scalar(next_text)) => {
                    let mut t = chars_of(last_text.as_str());
                    t.push(' ');
                    let nc = chars_of(next_text.as_str());
                    let ghost tv = t@;
                    let mut m: usize = 0;
                    while m < nc.len()
                        invariant
                            m <= nc.len(),
                            t@ == tv + nc@.take(m as int),
                        decreases nc.len() - m,
                    {
                        t.push(nc[m]);
                        assert(tv + nc@.take(m + 1) =~= tv + nc@.take(m as int) + seq![nc@[m as int]]);
                        m += 1;
                    }
                    assert(nc@.take(nc.len() as int) =~= nc@);
                    assert(t@ =~= last_text@ + seq![' '] + next_text@);
                    let v = Value::Scalar(string_of(t.as_slice()));
                    proof {
                        assert(prev[n - 1] == Value::Scalar(last_text));
                        assert(view_values(prev)[n - 1] == SValue::Scalar(last_text@));
                        assert(view_values(prev).last() == view_values(prev)[n - 1]);
                    }
                    merged.push(v);
                    proof {
                        assert(prev.drop_last() =~= popped);
                        lemma_view_values_push(popped, v);
                        assert(view_values(merged@) =~= view_values(prev).update(
                            view_values(prev).len() - 1,
                            view_value(v),
                        ));
                        assert(view_value(v) == SValue::Scalar(view_values(prev).last()->Scalar_0 + seq![' '] + vs.take(k + 1).last()->Scalar_0));
                    }
                    assert(view_values(merged@) == merge_split_quoted(vs.take(k + 1)));
                },
                _ => {
                    assert(false);
                },
            }
        } else {
            merged.push(item);
            proof { lemma_view_values_push(prev, item); }
            assert(view_values(merged@) == merge_split_quoted(vs.take(k + 1)));
        }
    }
    assert(vs.take(vs.len() as int) =~= vs);
    merged
}

/// Whether the characters equal one of the color keywords.
fn is_color_keyword_chars(cs: &[char]) -> (r: bool)
    ensures
        r == is_color_keyword(cs@),
{
    let r = cs.len() == 3 && ((cs[0] == 'r' && cs[1] == 'g' && cs[2] == 'b') || (cs[0] == 'H'
        && cs[1] == 'S' && cs[2] == 'V') || (cs[0] == 'h' && cs[1] == 's' && cs[2] == 'v'));
    proof {
        if r {
            assert(cs@ =~= seq![cs@[0], cs@[1], cs@[2]]);
        }
    }
    r
}

/// The color scalar that a list `{ rgb 153 0 51 }` stands for (see `collapse_color`).
fn collapse_color_array_to_scalar(items: &[Value]) -> (r: Option<Vec<char>>)
    ensures
        match r {
            Some(c) => collapse_color(view_values(items@)) == Some(c@),
            None => collapse_color(view_values(items@)) is None,
        },
{
    let ghost vs = view_values(items@);
    proof {
        lemma_view_values_map(items@);
    }
    if items.len() < 2 {
        return None;
    }
    let first = match &items[0] {
        Value::Scalar(first) => first,
        _ => {
            return None;
        },
    };
    let fc = chars_of(first.as_str());
    if !is_color_keyword_chars(fc.as_slice()) {
        return None;
    }
    let ghost rest = vs.skip(1);
    let mut out = fc;
    out.push(' ');
    out.push('{');
    out.push(' ');
    let ghost head = out@;
    let mut texts: Vec<Vec<char>> = Vec::new();
    let mut i: usize = 1;
    while i < items.len()
        invariant
            1 <= i <= items@.len(),
            vs == items@.map_values(|v: Value| view_value(v)),
            vs == view_values(items@),
            vs.len() >= 2,
            vs[0] is Scalar && is_color_keyword(vs[0]->Scalar_0),
            rest == vs.skip(1),
            all_plain_scalars(rest.take(i - 1)),
            view_parts(texts@) == scalar_texts(rest.take(i - 1)),
        decreases items.len() - i,
    {
        let text = match &items[i] {
            Value::Scalar(text) => text,
            _ => {
                assert(!all_plain_scalars(rest)) by {
                    assert(!(rest[i - 1] is Scalar));
                }
                return None;
            },
        };
        let tc = chars_of(text.as_str());
        if contains_char(tc.as_slice(), '\n') {
            assert(!all_plain_scalars(rest)) by {
                assert(rest[i - 1]->Scalar_0.contains('\n'));
            }
            return None;
        }
        let ghost prev = texts@;
        texts.push(tc);
        proof {
            assert(rest.take(i as int) =~= rest.take(i - 1).push(rest[i - 1]));
            assert(view_parts(texts@) =~= view_parts(prev).push(rest[i - 1]->Scalar_0));
            assert(scalar_texts(rest.take(i as int)) =~= scalar_texts(rest.take(i - 1)).push(
                rest[i - 1]->Scalar_0,
            ));
            assert forall|k: int| 0 <= k < i implies (#[trigger] rest.take(i as int)[k] is Scalar
                && !rest.take(i as int)[k]->Scalar_0.contains('\n')) by {
                if k < i - 1 {
                    assert(rest.take(i as int)[k] == rest.take(i - 1)[k]);
                }
            }
        }
        i += 1;
    }
    assert(rest.take(items.len() - 1) =~= rest);
    let joined = join_parts_with_space(&texts);
    let mut k: usize = 0;
    while k < joined.len()
        invariant
            k <= joined.len(),
            out@ == head + joined@.take(k as int),
        decreases joined.len() - k,
    {
        out.push(joined[k]);
        assert(head + joined@.take(k + 1) =~= head + joined@.take(k as int) + seq![joined@[k as int]]);
        k += 1;
    }
    assert(joined@.take(joined.len() as int) =~= joined@);
    out.push(' ');
    out.push('}');
    proof {
        assert(vs[0] == SValue::Scalar(first@));
        assert(out@ =~= first@ + seq![' ', '{', ' '] + joined@ + seq![' ', '}']);
    }
    Some(out)
}

fn keyword_eq(cs: &[char], kw: &[char]) -> (r: bool)
    ensures
        r == (cs@ == kw@),
{
    if cs.len() != kw.len() {
        return false;
    }
    let r = occurs_at_exec(cs, 0, kw);
    assert(cs@.subrange(0, kw@.len() as int) =~= cs@);
    r
}

fn ends_with_exec(cs: &[char], suffix: &[char]) -> (r: bool)
    ensures
        r == ends_with(cs@, suffix@),
{
    if suffix.len() > cs.len() {
        return false;
    }
    occurs_at_exec(cs, cs.len() - suffix.len(), suffix)
}

/// Whether a scalar value is worth reading as a script (see `should_attempt_nested`).
fn should_attempt_nested_quoted_parse(key: &[char], raw: &[char]) -> (r: bool)
    ensures
        r == should_attempt_nested(key@, raw@),
{
    let k1: &[char] = &['e', 'f', 'f', 'e', 'c', 't'];
    let k2: &[char] = &['t', 'r', 'i', 'g', 'g', 'e', 'r'];
    let k3: &[char] = &['m', 'o', 'd', 'i', 'f', 'i', 'e', 'r'];
    let k4: &[char] = &['d', 'i', 'v', 'i', 's', 'i', 'o', 'n'];
    let s1: &[char] = &['_', 'e', 'f', 'f', 'e', 'c', 't'];
    let s2: &[char] = &['_', 't', 'r', 'i', 'g', 'g', 'e', 'r'];
    let s3: &[char] = &['_', 'm', 'o', 'd', 'i', 'f', 'i', 'e', 'r'];
    let key_likely = keyword_eq(key, k1) || keyword_eq(key, k2) || keyword_eq(key, k3)
        || keyword_eq(key, k4) || ends_with_exec(key, s1) || ends_with_exec(key, s2)
        || ends_with_exec(key, s3);
    let q: &[char] = &['"'];
    let bq: &[char] = &['\\', '"'];
    let value_likely = occurs_at_exec(raw, 0, q) && ends_with_exec(raw, q) && contains_exec(raw, bq)
        && contains_char(raw, '=') && (contains_char(raw, '{') || contains_char(raw, '}')
        || count_equals_at_least_two(raw));
    proof {
        assert(k1@ =~= seq!['e', 'f', 'f', 'e', 'c', 't']);
        assert(k2@ =~= seq!['t', 'r', 'i', 'g', 'g', 'e', 'r']);
        assert(k3@ =~= seq!['m', 'o', 'd', 'i', 'f', 'i', 'e', 'r']);
        assert(k4@ =~= seq!['d', 'i', 'v', 'i', 's', 'i', 'o', 'n']);
        assert(s1@ =~= seq!['_', 'e', 'f', 'f', 'e', 'c', 't']);
        assert(s2@ =~= seq!['_', 't', 'r', 'i', 'g', 'g', 'e', 'r']);
        assert(s3@ =~= seq!['_', 'm', 'o', 'd', 'i', 'f', 'i', 'e', 'r']);
        assert(q@ =~= seq!['"']);
        assert(bq@ =~= seq!['\\', '"']);
    }
    key_likely || value_likely
}

/// Whether `=` occurs at least twice.
fn count_equals_at_least_two(raw: &[char]) -> (r: bool)
    ensures
        r == (char_count(raw@, '=') >= 2),
{
    let mut count: usize = 0;
    let mut i: usize = 0;
    while i < raw.len()
        invariant
            i <= raw.len(),
            count == char_count(raw@.take(i as int), '='),
            count <= i,
        decreases raw.len() - i,
    {
        proof {
            assert(raw@.take(i + 1).drop_last() =~= raw@.take(i as int));
            assert(raw@.take(i + 1).last() == raw@[i as int]);
        }
        if raw[i] == '=' {
            count += 1;
        }
        i += 1;
    }
    assert(raw@.take(raw.len() as int) =~= raw@);
    count >= 2
}

/// The upper-case hexadecimal digits of `n` (see `hex_upper`).
fn hex_digits(n: usize) -> (r: Vec<char>)
    ensures
        r@ == hex_upper(n as nat),
    decreases n,
{
    let table: [char; 16] = ['0', '1', '2', '3', '4', '5', '6', '7', '8', '9', 'A', 'B', 'C', 'D', 'E', 'F'];
    assert(table@ =~= hex_chars());
    if n < 16 {
        let v = vec![table[n]];
        assert(v@ =~= seq![hex_digit(n as nat)]);
        v
    } else {
        let mut v = hex_digits(n / 16);
        v.push(table[n % 16]);
        v
    }
}

/// Counts, per key, the entries of one scope read so far.  Each key occurs once.
struct ScopeKeyCounter {
    items: Vec<(Vec<char>, usize)>,
}

/// The count stored for `key`.
spec fn stored_count(items: Seq<(Vec<char>, usize)>, key: Seq<char>) -> nat
    decreases items.len(),
{
    if items.len() == 0 {
        0
    } else {
        stored_count(items.drop_last(), key) + if items.last().0@ == key {
            items.last().1 as nat
        } else {
            0nat
        }
    }
}

spec fn distinct_keys(items: Seq<(Vec<char>, usize)>) -> bool {
    forall|i: int, j: int| 0 <= i < j < items.len() ==> items[i].0@ != items[j].0@
}

proof fn lemma_stored_count_absent(items: Seq<(Vec<char>, usize)>, key: Seq<char>)
    requires
        forall|i: int| 0 <= i < items.len() ==> items[i].0@ != key,
    ensures
        stored_count(items, key) == 0,
    decreases items.len(),
{
    if items.len() > 0 {
        lemma_stored_count_absent(items.drop_last(), key);
    }
}

proof fn lemma_stored_count_at(items: Seq<(Vec<char>, usize)>, i: int, key: Seq<char>)
    requires
        distinct_keys(items),
        0 <= i < items.len(),
        items[i].0@ == key,
    ensures
        stored_count(items, key) == items[i].1,
    decreases items.len(),
{
    if i < items.len() - 1 {
        lemma_stored_count_at(items.drop_last(), i, key);
    } else {
        lemma_stored_count_absent(items.drop_last(), key);
    }
}

proof fn lemma_stored_count_update(
    items: Seq<(Vec<char>, usize)>,
    i: int,
    entry: (Vec<char>, usize),
    key: Seq<char>,
)
    requires
        0 <= i < items.len(),
        items[i].0@ == entry.0@,
    ensures
        stored_count(items.update(i, entry), key) + (if entry.0@ == key {
            items[i].1 as nat
        } else {
            0nat
        }) == stored_count(items, key) + (if entry.0@ == key {
            entry.1 as nat
        } else {
            0nat
        }),
    decreases items.len(),
{
    if i < items.len() - 1 {
        assert(items.update(i, entry).drop_last() =~= items.drop_last().update(i, entry));
        lemma_stored_count_update(items.drop_last(), i, entry, key);
    } else {
        assert(items.update(i, entry).drop_last() =~= items.drop_last());
    }
}

impl ScopeKeyCounter {
    spec fn count(&self, key: Seq<char>) -> nat {
        stored_count(self.items@, key)
    }

    spec fn wf(&self) -> bool {
        distinct_keys(self.items@)
    }

    fn default() -> (r: Self)
        ensures
            r.wf(),
            forall|k: Seq<char>| #[trigger] r.count(k) == 0,
    {
        ScopeKeyCounter { items: Vec::new() }
    }

    /// How many entries with `key` were counted before this one; counts this one.
    fn next_index(&mut self, key: &[char]) -> (r: usize)
        requires
            old(self).wf(),
            old(self).count(key@) < usize::MAX,
        ensures
            final(self).wf(),
            r == old(self).count(key@),
            forall|k: Seq<char>| #[trigger] final(self).count(k) == old(self).count(k) + if k == key@ {
                1nat
            } else {
                0nat
            },
    {
        let mut i: usize = 0;
        while i < self.items.len()
            invariant
                i <= self.items@.len(),
                self.items@ == old(self).items@,
                distinct_keys(self.items@),
                stored_count(self.items@, key@) < usize::MAX,
                forall|j: int| 0 <= j < i ==> self.items@[j].0@ != key@,
            decreases self.items.len() - i,
        {
            if keyword_eq(self.items[i].0.as_slice(), key) {
                let current = self.items[i].1;
                proof {
                    lemma_stored_count_at(self.items@, i as int, key@);
                }
                let entry = (vstd::slice::slice_to_vec(key), current + 1);
                let ghost before = self.items@;
                self.items.set(i, entry);
                proof {
                    assert forall|k: Seq<char>| #[trigger] self.count(k) == old(self).count(k) + if k == key@ {
                        1nat
                    } else {
                        0nat
                    } by {
                        lemma_stored_count_update(before, i as int, entry, k);
                    }
                    assert forall|a: int, b: int| 0 <= a < b < self.items@.len() implies self.items@[a].0@
                        != self.items@[b].0@ by {
                        assert(before[a].0@ != before[b].0@);
                    }
                }
                return current;
            }
            i += 1;
        }
        proof {
            lemma_stored_count_absent(self.items@, key@);
        }
        let ghost before = self.items@;
        self.items.push((vstd::slice::slice_to_vec(key), 1));
        proof {
            assert(self.items@.drop_last() =~= before);
            assert forall|a: int, b: int| 0 <= a < b < self.items@.len() implies self.items@[a].0@
                != self.items@[b].0@ by {
                if b < before.len() {
                    assert(before[a].0@ != before[b].0@);
                }
            }
        }
        0
    }
}

/// A parse error naming an unexpected token: the prefix followed by the token's `Debug` form.
fn token_error(prefix: &str, token: &Token) -> (r: Hoi4ParserError)
    ensures
        r is Parse,
        r->Parse_message@ == prefix@ + token_debug_text(view_token(*token)),
{
    let mut m = prefix.to_owned();
    match token {
        Token::Ident(s) => {
            m.append("Ident(");
            let cs = chars_of(s.as_str());
            m.append(debug_str(cs.as_slice()).as_str());
            m.append(")");
        },
        Token::StringLiteral(s) => {
            m.append("StringLiteral(");
            let cs = chars_of(s.as_str());
            m.append(debug_str(cs.as_slice()).as_str());
            m.append(")");
        },
        Token::Equals => m.append("Equals"),
        Token::LBrace => m.append("LBrace"),
        Token::RBrace => m.append("RBrace"),
        Token::Newline => m.append("Newline"),
    }
    Hoi4ParserError::Parse { message: m }
}

/// The characters of a word token.
fn word_chars(t: &Token) -> (r: Vec<char>)
    ensures
        r@ == word_text(view_token(*t)),
{
    match t {
        Token::Ident(s) => chars_of(s.as_str()),
        Token::StringLiteral(s) => chars_of(s.as_str()),
        _ => Vec::new(),
    }
}

fn is_op_token_text(s: &String) -> (r: bool)
    ensures
        r == is_op_text(s@),
{
    let cs = chars_of(s.as_str());
    let r = cs.len() == 1 && (cs[0] == '>' || cs[0] == '<' || cs[0] == '!' || cs[0] == '=');
    proof {
        if r {
            assert(cs@ =~= seq![cs@[0]]);
        }
    }
    r
}

fn is_op_chars(cs: &[char]) -> (r: bool)
    ensures
        r == is_op_text(cs@),
{
    let r = cs.len() == 1 && (cs[0] == '>' || cs[0] == '<' || cs[0] == '!' || cs[0] == '=');
    proof {
        if r {
            assert(cs@ =~= seq![cs@[0]]);
        }
    }
    r
}

/// A braced scalar block that is read ends past its opening brace, within the tokens.
proof fn lemma_braced_block_advances(ts: Seq<SToken>, p: int)
    requires
        0 <= p < ts.len(),
        ts[p] is LBrace,
        braced_scalar_block(ts, p) is Ok,
    ensures
        p < braced_scalar_block(ts, p)->Ok_0.1 <= ts.len(),
{
    lemma_braced_loop_bounds(ts, p + 1, seq!['{'], true, 1);
    assert(append_part(Seq::<char>::empty(), false, seq!['{']) =~= seq!['{']);
}

proof fn lemma_braced_loop_bounds(ts: Seq<SToken>, p: int, out: Seq<char>, has: bool, depth: nat)
    requires
        0 <= p,
        braced_scalar_loop(ts, p, out, has, depth) is Ok,
    ensures
        p < braced_scalar_loop(ts, p, out, has, depth)->Ok_0.1 <= ts.len(),
    decreases ts.len() - p,
{
    if p < ts.len() {
        match ts[p] {
            SToken::LBrace => lemma_braced_loop_bounds(ts, p + 1, append_part(out, has, seq!['{']), true, depth + 1),
            SToken::RBrace => {
                if depth > 1 {
                    lemma_braced_loop_bounds(ts, p + 1, append_part(out, has, seq!['}']), true, (depth - 1) as nat);
                }
            },
            SToken::Ident(s) => lemma_braced_loop_bounds(ts, p + 1, append_part(out, has, spec_normalize(s)), true, depth),
            SToken::Str(s) => lemma_braced_loop_bounds(ts, p + 1, append_part(out, has, spec_normalize(s)), true, depth),
            SToken::Equals => lemma_braced_loop_bounds(ts, p + 1, append_part(out, has, seq!['=']), true, depth),
            SToken::Newline => lemma_braced_loop_bounds(ts, p + 1, out, has, depth),
        }
    }
}

proof fn lemma_skip_newlines_bounds(ts: Seq<SToken>, p: int)
    requires
        0 <= p <= ts.len(),
    ensures
        p <= skip_newlines(ts, p) <= ts.len(),
    decreases ts.len() - p,
{
    if p < ts.len() && ts[p] is Newline {
        lemma_skip_newlines_bounds(ts, p + 1);
    }
}

/// The items a list block collected, read as one line or as several.
fn finish_array_items(events: Vec<ArrayEvent>, has_newline: bool) -> (r: Vec<Value>)
    ensures
        view_values(r@) == list_items(view_events(events@), has_newline),
{
    let items = if has_newline {
        build_multiline_array_items(events)
    } else {
        build_singleline_array_items(events)
    };
    merge_adjacent_split_quoted_scalars(items)
}

proof fn lemma_key_count_le(acc: Seq<SEntry>, key: Seq<char>)
    ensures
        key_count(acc, key) <= acc.len(),
    decreases acc.len(),
{
    if acc.len() > 0 {
        lemma_key_count_le(acc.drop_last(), key);
    }
}

/// A quoted script read out of a scalar value holds fewer quotes than the tokens from the
/// start of its entry, so reading nested scripts ends.
proof fn lemma_nested_quotes_decrease(
    ts: Seq<SToken>,
    p: int,
    p3: int,
    lead: Option<Seq<char>>,
    raw: Seq<char>,
    decoded: Seq<char>,
    t2: Seq<SToken>,
)
    requires
        0 <= p <= p3,
        lead matches Some(op) ==> quote_count(op) == 0,
        scalar_sequence(ts, p3, lead) matches Ok((r, _)) && r == raw,
        spec_decode_nested(raw) == Some(decoded),
        spec_tokenize(decoded) == Ok::<Seq<SToken>, ()>(t2),
    ensures
        quotes_from(t2, 0) < quotes_from(ts, p),
{
    lemma_scalar_sequence_quotes(ts, p3, lead);
    lemma_decode_quotes(raw);
    lemma_tokenize_quotes(decoded, 0);
    lemma_quotes_from_mono(ts, p, p3);
    assert(decoded.skip(0) =~= decoded);
}

/// The entries of a token sequence, as the document's root object (see `parse_root`).
pub fn parse_root(tokens: &[Token]) -> (r: Result<Value, Hoi4ParserError>)
    ensures
        match r {
            Ok(v) => parse_document(view_tokens(tokens@)) == Ok::<SValue, Seq<char>>(view_value(v)),
            Err(e) => e is Parse && parse_document(view_tokens(tokens@)) == Err::<SValue, Seq<char>>(e->Parse_message@),
        },
    decreases quotes_from(view_tokens(tokens@), 0), tokens@.len(), 9int,
{
    let mut parser = Parser::new(tokens);
    match parser.parse_entries_until_rbrace(false) {
        Ok(object) => Ok(Value::Object(object)),
        Err(e) => Err(e),
    }
}

/// How a `{` block will be read.
enum BracedValueKind {
    Object,
    Array,
}

/// Reads tokens into values, keeping the position of the next unread token.
struct Parser<'a> {
    tokens: &'a [Token],
    pos: usize,
}

impl<'a> Parser<'a> {
    spec fn ts(&self) -> Seq<SToken> {
        view_tokens(self.tokens@)
    }

    spec fn ok(&self) -> bool {
        self.pos <= self.tokens@.len()
    }

    fn new(tokens: &'a [Token]) -> (r: Self)
        ensures
            r.tokens == tokens,
            r.pos == 0,
    {
        Parser { tokens, pos: 0 }
    }

    fn peek(&self) -> (r: Option<&'a Token>)
        ensures
            self.pos < self.tokens@.len() ==> r == Some(&self.tokens@[self.pos as int]),
            self.pos >= self.tokens@.len() ==> r is None,
            r is Some <==> self.pos < self.tokens@.len(),
    {
        if self.pos < self.tokens.len() {
            Some(&self.tokens[self.pos])
        } else {
            None
        }
    }

    fn skip_newlines(&mut self)
        requires
            old(self).ok(),
        ensures
            old(self).pos <= final(self).pos,
            final(self).tokens == old(self).tokens,
            final(self).pos == skip_newlines(old(self).ts(), old(self).pos as int),
            final(self).ok(),
    {
        let ghost p0 = self.pos as int;
        while self.pos < self.tokens.len() && matches!(self.tokens[self.pos], Token::Newline)
            invariant
                self.tokens == old(self).tokens,
                self.ok(),
                p0 == old(self).pos,
                p0 <= self.pos,
                skip_newlines(self.ts(), p0) == skip_newlines(self.ts(), self.pos as int),
            decreases self.tokens.len() - self.pos,
        {
            self.pos += 1;
        }
    }

    fn expect_key(&mut self) -> (r: Result<Vec<char>, Hoi4ParserError>)
        requires
            old(self).ok(),
        ensures
            old(self).pos <= final(self).pos,
            final(self).tokens == old(self).tokens,
            final(self).ok(),
            match r {
                Ok(k) => expect_key(old(self).ts(), old(self).pos as int) == Ok::<(Seq<char>, int), Seq<char>>((k@, final(self).pos as int)),
                Err(e) => e is Parse && expect_key(old(self).ts(), old(self).pos as int) == Err::<(Seq<char>, int), Seq<char>>(e->Parse_message@),
            },
    {
        if self.pos >= self.tokens.len() {
            return Err(Hoi4ParserError::parse_error("期望键名，但输入已结束"));
        }
        match &self.tokens[self.pos] {
            Token::Ident(s) => {
                self.pos += 1;
                Ok(chars_of(s.as_str()))
            },
            Token::StringLiteral(s) => {
                self.pos += 1;
                let cs = chars_of(s.as_str());
                Ok(normalize_chars(cs.as_slice()))
            },
            token => Err(token_error("期望键名，但遇到: ", token)),
        }
    }

    /// A `{ ... }` block inside a scalar, as text (see `braced_scalar_block`).
    fn parse_braced_scalar_block(&mut self) -> (r: Result<Vec<char>, Hoi4ParserError>)
        requires
            old(self).ok(),
        ensures
            final(self).tokens == old(self).tokens,
            final(self).ok(),
            old(self).pos <= final(self).pos,
            match r {
                Ok(b) => braced_scalar_block(old(self).ts(), old(self).pos as int) == Ok::<(Seq<char>, int), Seq<char>>((b@, final(self).pos as int)),
                Err(e) => e is Parse && braced_scalar_block(old(self).ts(), old(self).pos as int) == Err::<(Seq<char>, int), Seq<char>>(e->Parse_message@),
            },
    {
        let ghost ts = self.ts();
        let ghost p0 = self.pos as int;
        let mut out: Vec<char> = Vec::new();
        let mut has_parts = false;
        let mut depth: usize = 0;
        while self.pos < self.tokens.len()
            invariant
                self.tokens == old(self).tokens,
                ts == self.ts(),
                self.ok(),
                p0 == old(self).pos,
                p0 <= self.pos,
                depth <= self.pos - p0,
                braced_scalar_block(ts, p0) == braced_scalar_loop(ts, self.pos as int, out@, has_parts, depth as nat),
            decreases self.tokens.len() - self.pos,
        {
            let ghost p = self.pos as int;
            assert(ts[p] == view_token(self.tokens@[p]));
            let ghost old_out = out@;
            let ghost old_has = has_parts;
            match &self.tokens[self.pos] {
                Token::LBrace => {
                    assert(depth < usize::MAX);
                    depth += 1;
                    let lb: &[char] = &['{'];
                    assert(lb@ =~= seq!['{']);
                    append_token_with_space(&mut out, &mut has_parts, lb);
                    self.pos += 1;
                },
                Token::RBrace => {
                    if depth == 0 {
                        return Err(Hoi4ParserError::parse_error("花括号未闭合，缺少 '{'"));
                    }
                    depth -= 1;
                    let rb: &[char] = &['}'];
                    assert(rb@ =~= seq!['}']);
                    append_token_with_space(&mut out, &mut has_parts, rb);
                    self.pos += 1;
                    if depth == 0 {
                        assert(out@ =~= append_part(old_out, old_has, seq!['}']));
                        return Ok(out);
                    }
                },
                Token::Ident(t) | Token::StringLiteral(t) => {
                    let cs = chars_of(t.as_str());
                    let normalized = normalize_chars(cs.as_slice());
                    append_token_with_space(&mut out, &mut has_parts, normalized.as_slice());
                    self.pos += 1;
                },
                Token::Equals => {
                    let eqs: &[char] = &['='];
                    assert(eqs@ =~= seq!['=']);
                    append_token_with_space(&mut out, &mut has_parts, eqs);
                    self.pos += 1;
                },
                Token::Newline => {
                    self.pos += 1;
                },
            }
        }
        Err(Hoi4ParserError::parse_error("标量中的花括号块未闭合，缺少 '}'"))
    }

    /// A scalar value running to the line end (see `scalar_sequence`).
    fn parse_scalar_sequence(&mut self, leading_operator: Option<Vec<char>>) -> (r: Result<
        Vec<char>,
        Hoi4ParserError,
    >)
        requires
            old(self).ok(),
        ensures
            final(self).tokens == old(self).tokens,
            final(self).ok(),
            old(self).pos <= final(self).pos,
            match r {
                Ok(raw) => scalar_sequence(
                    old(self).ts(),
                    old(self).pos as int,
                    match leading_operator {
                        Some(o) => Some(o@),
                        None => None,
                    },
                ) == Ok::<(Seq<char>, int), Seq<char>>((raw@, final(self).pos as int)),
                Err(e) => e is Parse && scalar_sequence(
                    old(self).ts(),
                    old(self).pos as int,
                    match leading_operator {
                        Some(o) => Some(o@),
                        None => None,
                    },
                ) == Err::<(Seq<char>, int), Seq<char>>(e->Parse_message@),
            },
    {
        let ghost ts = self.ts();
        let ghost p0 = self.pos as int;
        let ghost lead = match &leading_operator {
            Some(o) => Some(o@),
            None => None::<Seq<char>>,
        };
        let mut scalar: Vec<char> = Vec::new();
        let mut has_parts = false;
        let mut last_token_can_merge_equals = false;
        if let Some(op) = &leading_operator {
            append_token_with_space(&mut scalar, &mut has_parts, op.as_slice());
            last_token_can_merge_equals = is_op_chars(op.as_slice());
            assert(scalar@ =~= op@);
        }
        while self.pos < self.tokens.len()
            invariant
                self.tokens == old(self).tokens,
                ts == self.ts(),
                self.ok(),
                p0 == old(self).pos,
                p0 <= self.pos,
                lead == match leading_operator {
                    Some(o) => Some(o@),
                    None => None::<Seq<char>>,
                },
                scalar_sequence(ts, p0, lead) == scalar_loop(
                    ts,
                    self.pos as int,
                    scalar@,
                    has_parts,
                    last_token_can_merge_equals,
                ),
            decreases self.tokens.len() - self.pos,
        {
            let ghost p = self.pos as int;
            assert(ts[p] == view_token(self.tokens@[p]));
            proof {
                if p + 1 < ts.len() {
                    assert(ts[p + 1] == view_token(self.tokens@[p + 1]));
                }
            }
            match &self.tokens[self.pos] {
                Token::Newline | Token::RBrace => {
                    assert(ts[p] is Newline || ts[p] is RBrace);
                    if !has_parts {
                        return Err(Hoi4ParserError::parse_error("值解析失败，缺少标量内容"));
                    }
                    return Ok(scalar);
                },
                Token::Ident(_) | Token::StringLiteral(_) => {
                    if has_parts && (self.next_is_key_value_boundary()
                        || self.next_is_implicit_operator_boundary()) {
                        return Ok(scalar);
                    }
                    let cs = word_chars(&self.tokens[self.pos]);
                    let normalized = normalize_chars(cs.as_slice());
                    append_token_with_space(&mut scalar, &mut has_parts, normalized.as_slice());
                    last_token_can_merge_equals = is_op_chars(normalized.as_slice());
                    self.pos += 1;
                },
                Token::Equals => {
                    if has_parts && last_token_can_merge_equals {
                        scalar.push('=');
                    } else {
                        let eqs: &[char] = &['='];
                        assert(eqs@ =~= seq!['=']);
                        append_token_with_space(&mut scalar, &mut has_parts, eqs);
                    }
                    last_token_can_merge_equals = true;
                    self.pos += 1;
                },
                Token::LBrace => {
                    let braced = self.parse_braced_scalar_block();
                    match braced {
                        Ok(b) => {
                            proof {
                                lemma_braced_block_advances(ts, p);
                            }
                            append_token_with_space(&mut scalar, &mut has_parts, b.as_slice());
                            last_token_can_merge_equals = false;
                        },
                        Err(e) => {
                            assert(ts[p] is LBrace);
                            assert(scalar_loop(ts, p, scalar@, has_parts, last_token_can_merge_equals) == Err::<(Seq<char>, int), Seq<char>>(e->Parse_message@));
                            assert(scalar_sequence(ts, p0, lead) == Err::<(Seq<char>, int), Seq<char>>(e->Parse_message@));
                            assert(ts == old(self).ts());
                            assert(e is Parse);
                            return Err(e);
                        },
                    }
                },
            }
        }
        if !has_parts {
            return Err(Hoi4ParserError::parse_error("值解析失败，缺少标量内容"));
        }
        Ok(scalar)
    }

    fn next_is_key_value_boundary(&self) -> (r: bool)
        ensures
            r == key_value_boundary(self.ts(), self.pos as int),
    {
        self.pos < self.tokens.len() && self.pos + 1 < self.tokens.len() && matches!(
            self.tokens[self.pos],
            Token::Ident(_)
        ) && matches!(self.tokens[self.pos + 1], Token::Equals)
    }

    fn next_is_implicit_operator_boundary(&self) -> (r: bool)
        ensures
            r == implicit_operator_boundary(self.ts(), self.pos as int),
    {
        if self.pos < self.tokens.len() && self.pos + 1 < self.tokens.len() && matches!(
            self.tokens[self.pos],
            Token::Ident(_)
        ) {
            match &self.tokens[self.pos + 1] {
                Token::Ident(op) => is_op_token_text(op),
                _ => false,
            }
        } else {
            false
        }
    }

    /// How the `{` block starting at the current position (past its brace) will be read
    /// (see `classify_braced`).
    fn classify_braced_value(&self) -> (r: BracedValueKind)
        requires
            self.ok(),
        ensures
            (r is Object) == (classify_braced(self.ts(), self.pos as int) is Object),
    {
        let ghost ts = self.ts();
        let mut idx = self.pos;
        while idx < self.tokens.len() && matches!(self.tokens[idx], Token::Newline)
            invariant
                self.pos <= idx <= self.tokens@.len(),
                ts == self.ts(),
                skip_newlines(ts, self.pos as int) == skip_newlines(ts, idx as int),
            decreases self.tokens.len() - idx,
        {
            assert(ts[idx as int] == view_token(self.tokens@[idx as int]));
            idx += 1;
        }
        if idx < self.tokens.len() {
            assert(ts[idx as int] == view_token(self.tokens@[idx as int]));
        }
        if idx >= self.tokens.len() {
            return BracedValueKind::Array;
        }
        match &self.tokens[idx] {
            Token::RBrace => BracedValueKind::Object,
            Token::Ident(_) | Token::StringLiteral(_) => {
                let mut j = idx + 1;
                while j < self.tokens.len() && matches!(self.tokens[j], Token::Newline)
                    invariant
                        idx < j <= self.tokens@.len(),
                        ts == self.ts(),
                        skip_newlines(ts, idx + 1) == skip_newlines(ts, j as int),
                    decreases self.tokens.len() - j,
                {
                    assert(ts[j as int] == view_token(self.tokens@[j as int]));
                    j += 1;
                }
                if j < self.tokens.len() {
                    assert(ts[j as int] == view_token(self.tokens@[j as int]));
                    match &self.tokens[j] {
                        Token::Equals => BracedValueKind::Object,
                        Token::Ident(op) => if is_op_token_text(op) {
                            BracedValueKind::Object
                        } else {
                            BracedValueKind::Array
                        },
                        _ => BracedValueKind::Array,
                    }
                } else {
                    BracedValueKind::Array
                }
            },
            _ => BracedValueKind::Array,
        }
    }

    /// Entries up to a `}` or the end (see `entries_loop`).
    fn parse_entries_until_rbrace(&mut self, stop_on_rbrace: bool) -> (r: Result<
        ObjectNode,
        Hoi4ParserError,
    >)
        requires
            old(self).ok(),
        ensures
            final(self).tokens == old(self).tokens,
            final(self).ok(),
            old(self).pos <= final(self).pos,
            match r {
                Ok(o) => entries_loop(old(self).ts(), old(self).pos as int, stop_on_rbrace, seq![])
                    == Ok::<(Seq<SEntry>, int), Seq<char>>((view_entries(o.entries@), final(self).pos as int)),
                Err(e) => e is Parse && entries_loop(old(self).ts(), old(self).pos as int, stop_on_rbrace, seq![])
                    == Err::<(Seq<SEntry>, int), Seq<char>>(e->Parse_message@),
            },
        decreases quotes_from(old(self).ts(), old(self).pos as int), old(self).tokens@.len() - old(self).pos, 6int,
    {
        let ghost ts = self.ts();
        let ghost p0 = self.pos as int;
        let mut entries: Vec<Entry> = Vec::new();
        let mut key_counts = ScopeKeyCounter::default();
        assert(view_entries(entries@) =~= Seq::<SEntry>::empty());
        while self.pos < self.tokens.len()
            invariant
                self.tokens == old(self).tokens,
                ts == self.ts(),
                self.ok(),
                p0 == old(self).pos,
                p0 <= self.pos,
                entries_loop(ts, p0, stop_on_rbrace, seq![]) == entries_loop(
                    ts,
                    self.pos as int,
                    stop_on_rbrace,
                    view_entries(entries@),
                ),
                key_counts.wf(),
                forall|k: Seq<char>| #[trigger] key_counts.count(k) == key_count(view_entries(entries@), k),
                entries@.len() * 2 <= self.pos - p0,
            decreases self.tokens.len() - self.pos,
        {
            let ghost p = self.pos as int;
            assert(ts[p] == view_token(self.tokens@[p]));
            match &self.tokens[self.pos] {
                Token::Newline => {
                    self.pos += 1;
                },
                Token::RBrace => {
                    self.pos += 1;
                    if stop_on_rbrace {
                        return Ok(ObjectNode::new(entries));
                    }
                },
                Token::Ident(_) | Token::StringLiteral(_) => {
                    proof {
                        lemma_quotes_from_mono(ts, p0, p);
                    }
                    let parsed = self.parse_entry();
                    match parsed {
                        Err(e) => {
                            return Err(e);
                        },
                        Ok(entry) => {
                            let mut entry = entry;
                            let ghost e0 = view_entry(entry);
                            let ghost acc = view_entries(entries@);
                            let key_chars = chars_of(entry.key.as_str());
                            proof {
                                lemma_key_count_le(acc, key_chars@);
                                lemma_view_entries_len(entries@);
                            }
                            let dup_index = key_counts.next_index(key_chars.as_slice());
                            if dup_index > 0 {
                                entry.metadata.duplicate_index = Some(dup_index);
                                let mut suffix: Vec<char> = vec!['$', '$'];
                                let digits = hex_digits(dup_index);
                                let ghost sv = suffix@;
                                let mut m: usize = 0;
                                while m < digits.len()
                                    invariant
                                        m <= digits.len(),
                                        suffix@ == sv + digits@.take(m as int),
                                    decreases digits.len() - m,
                                {
                                    suffix.push(digits[m]);
                                    assert(sv + digits@.take(m + 1) =~= sv + digits@.take(m as int) + seq![digits@[m as int]]);
                                    m += 1;
                                }
                                assert(digits@.take(digits.len() as int) =~= digits@);
                                assert(suffix@ =~= seq!['$', '$'] + hex_upper(dup_index as nat));
                                entry.metadata.duplicate_suffix = Some(string_of(suffix.as_slice()));
                            }
                            proof {
                                assert(view_entry(entry) == with_duplicate_meta(acc, e0));
                            }
                            let ghost prev = entries@;
                            entries.push(entry);
                            proof {
                                lemma_view_entries_push(prev, entry);
                                assert(view_entries(entries@).drop_last() =~= acc);
                            }
                        },
                    }
                },
                token => {
                    return Err(token_error("不期望的 token: ", token));
                },
            }
        }
        Ok(ObjectNode::new(entries))
    }

    /// One `key = value` entry (see `parse_entry`).
    fn parse_entry(&mut self) -> (r: Result<Entry, Hoi4ParserError>)
        requires
            old(self).ok(),
        ensures
            final(self).tokens == old(self).tokens,
            final(self).ok(),
            old(self).pos <= final(self).pos,
            match r {
                Ok(e) => parse_entry(old(self).ts(), old(self).pos as int) == Ok::<(SEntry, int), Seq<char>>((view_entry(e), final(self).pos as int))
                    && old(self).pos + 2 <= final(self).pos,
                Err(e) => e is Parse && parse_entry(old(self).ts(), old(self).pos as int) == Err::<(SEntry, int), Seq<char>>(e->Parse_message@),
            },
        decreases quotes_from(old(self).ts(), old(self).pos as int), old(self).tokens@.len() - old(self).pos, 5int,
    {
        let ghost ts = self.ts();
        let ghost p0 = self.pos as int;
        let key = match self.expect_key() {
            Ok(k) => k,
            Err(e) => {
                return Err(e);
            },
        };
        let ghost p1 = self.pos as int;
        let leading = match self.expect_equals_or_operator() {
            Ok(l) => l,
            Err(e) => {
                return Err(e);
            },
        };
        let ghost p2 = self.pos as int;
        proof {
            lemma_skip_newlines_bounds(ts, p1);
            lemma_operator_quotes(ts, p1);
        }
        self.skip_newlines();
        let p3 = self.pos;
        proof {
            lemma_skip_newlines_bounds(ts, p2);
            if p3 < ts.len() {
                assert(ts[p3 as int] == view_token(self.tokens@[p3 as int]));
            }
        }
        if p3 < self.tokens.len() && matches!(self.tokens[p3], Token::LBrace) {
            proof {
                lemma_quotes_from_mono(ts, p0, p3 as int);
            }
            let value = match self.parse_value() {
                Ok(v) => v,
                Err(e) => {
                    return Err(e);
                },
            };
            let k = string_of(key.as_slice());
            return Ok(Entry { key: k, value, metadata: EntryMetadata::default() });
        }
        let ghost lead = match &leading {
            Some(o) => Some(o@),
            None => None::<Seq<char>>,
        };
        let raw = match self.parse_scalar_sequence(leading) {
            Ok(raw) => raw,
            Err(e) => {
                return Err(e);
            },
        };
        if should_attempt_nested_quoted_parse(key.as_slice(), raw.as_slice()) {
            if let Some(decoded) = decode_nested_chars(raw.as_slice()) {
                if let Ok(tokens2) = tokenize_chars(&decoded) {
                    proof {
                        lemma_nested_quotes_decrease(ts, p0, p3 as int, lead, raw@, decoded@, view_tokens(tokens2@));
                    }
                    if let Ok(parsed) = parse_root(tokens2.as_slice()) {
                        let k = string_of(key.as_slice());
                        let mut metadata = EntryMetadata::default();
                        metadata.nested_quoted = true;
                        return Ok(Entry { key: k, value: parsed, metadata });
                    }
                }
            }
        }
        let k = string_of(key.as_slice());
        Ok(Entry { key: k, value: Value::Scalar(string_of(raw.as_slice())), metadata: EntryMetadata::default() })
    }

    /// A value: a word read as a scalar, or a `{` block (see `parse_value`).
    fn parse_value(&mut self) -> (r: Result<Value, Hoi4ParserError>)
        requires
            old(self).ok(),
        ensures
            final(self).tokens == old(self).tokens,
            final(self).ok(),
            old(self).pos <= final(self).pos,
            match r {
                Ok(v) => parse_value(old(self).ts(), old(self).pos as int) == Ok::<(SValue, int), Seq<char>>((view_value(v), final(self).pos as int))
                    && old(self).pos < final(self).pos,
                Err(e) => e is Parse && parse_value(old(self).ts(), old(self).pos as int) == Err::<(SValue, int), Seq<char>>(e->Parse_message@),
            },
        decreases quotes_from(old(self).ts(), old(self).pos as int), old(self).tokens@.len() - old(self).pos, 2int,
    {
        let ghost ts = self.ts();
        if self.pos >= self.tokens.len() {
            return Err(Hoi4ParserError::parse_error("值解析失败，输入提前结束"));
        }
        assert(ts[self.pos as int] == view_token(self.tokens@[self.pos as int]));
        match &self.tokens[self.pos] {
            Token::StringLiteral(s) | Token::Ident(s) => {
                self.pos += 1;
                let cs = chars_of(s.as_str());
                let n = normalize_chars(cs.as_slice());
                Ok(Value::Scalar(string_of(n.as_slice())))
            },
            Token::LBrace => {
                self.pos += 1;
                self.parse_braced_value(false)
            },
            token => Err(token_error("值解析失败，遇到不期望的 token: ", token)),
        }
    }

    /// The inside of a `{` block, past its brace (see `braced_value`).
    fn parse_braced_value(&mut self, anonymous: bool) -> (r: Result<Value, Hoi4ParserError>)
        requires
            old(self).ok(),
        ensures
            final(self).tokens == old(self).tokens,
            final(self).ok(),
            old(self).pos <= final(self).pos,
            match r {
                Ok(v) => braced_value(old(self).ts(), old(self).pos as int, anonymous) == Ok::<(SValue, int), Seq<char>>((view_value(v), final(self).pos as int)),
                Err(e) => e is Parse && braced_value(old(self).ts(), old(self).pos as int, anonymous) == Err::<(SValue, int), Seq<char>>(e->Parse_message@),
            },
        decreases quotes_from(old(self).ts(), old(self).pos as int), old(self).tokens@.len() - old(self).pos, 8int,
    {
        let checkpoint = self.pos;
        match self.classify_braced_value() {
            BracedValueKind::Object => match self.parse_entries_until_rbrace(true) {
                Ok(object) => if anonymous {
                    Ok(Value::AnonymousObject(object))
                } else {
                    Ok(Value::Object(object))
                },
                Err(_) => {
                    self.pos = checkpoint;
                    self.parse_array_value()
                },
            },
            BracedValueKind::Array => self.parse_array_value(),
        }
    }

    /// A list block, or the color scalar it stands for (see `array_value`).
    fn parse_array_value(&mut self) -> (r: Result<Value, Hoi4ParserError>)
        requires
            old(self).ok(),
        ensures
            final(self).tokens == old(self).tokens,
            final(self).ok(),
            old(self).pos <= final(self).pos,
            match r {
                Ok(v) => array_value(old(self).ts(), old(self).pos as int) == Ok::<(SValue, int), Seq<char>>((view_value(v), final(self).pos as int)),
                Err(e) => e is Parse && array_value(old(self).ts(), old(self).pos as int) == Err::<(SValue, int), Seq<char>>(e->Parse_message@),
            },
        decreases quotes_from(old(self).ts(), old(self).pos as int), old(self).tokens@.len() - old(self).pos, 7int,
    {
        let array = match self.parse_array_until_rbrace() {
            Ok(a) => a,
            Err(e) => {
                return Err(e);
            },
        };
        match collapse_color_array_to_scalar(array.as_slice()) {
            Some(c) => Ok(Value::Scalar(string_of(c.as_slice()))),
            None => Ok(Value::Array(array)),
        }
    }

    /// The items of a list block up to its `}` (see `array_loop`).
    fn parse_array_until_rbrace(&mut self) -> (r: Result<Vec<Value>, Hoi4ParserError>)
        requires
            old(self).ok(),
        ensures
            final(self).tokens == old(self).tokens,
            final(self).ok(),
            old(self).pos <= final(self).pos,
            match r {
                Ok(items) => array_loop(old(self).ts(), old(self).pos as int, seq![], false) == Ok::<(Seq<SValue>, int), Seq<char>>((view_values(items@), final(self).pos as int)),
                Err(e) => e is Parse && array_loop(old(self).ts(), old(self).pos as int, seq![], false) == Err::<(Seq<SValue>, int), Seq<char>>(e->Parse_message@),
            },
        decreases quotes_from(old(self).ts(), old(self).pos as int), old(self).tokens@.len() - old(self).pos, 6int,
    {
        let ghost ts = self.ts();
        let ghost p0 = self.pos as int;
        let mut events: Vec<ArrayEvent> = Vec::new();
        let mut has_top_level_newline = false;
        assert(view_events(events@) =~= Seq::<SEvent>::empty());
        while self.pos < self.tokens.len()
            invariant
                self.tokens == old(self).tokens,
                ts == self.ts(),
                self.ok(),
                p0 == old(self).pos,
                p0 <= self.pos,
                array_loop(ts, p0, seq![], false) == array_loop(
                    ts,
                    self.pos as int,
                    view_events(events@),
                    has_top_level_newline,
                ),
            decreases self.tokens.len() - self.pos,
        {
            let ghost p = self.pos as int;
            let ghost prev = events@;
            assert(ts[p] == view_token(self.tokens@[p]));
            match &self.tokens[self.pos] {
                Token::Newline => {
                    has_top_level_newline = true;
                    events.push(ArrayEvent::Newline);
                    assert(view_events(events@) =~= view_events(prev).push(SEvent::Newline));
                    self.pos += 1;
                },
                Token::RBrace => {
                    self.pos += 1;
                    return Ok(finish_array_items(events, has_top_level_newline));
                },
                Token::LBrace => {
                    proof {
                        lemma_quotes_from_mono(ts, p0, p);
                    }
                    let nested = match self.parse_array_item_value() {
                        Ok(v) => v,
                        Err(e) => {
                            return Err(e);
                        },
                    };
                    let ev = ArrayEvent::Nested(nested);
                    events.push(ev);
                    assert(view_events(events@) =~= view_events(prev).push(view_event(ev)));
                },
                Token::Ident(t) | Token::StringLiteral(t) => {
                    let cs = chars_of(t.as_str());
                    let n = normalize_chars(cs.as_slice());
                    let ev = ArrayEvent::Scalar(n);
                    events.push(ev);
                    assert(view_events(events@) =~= view_events(prev).push(view_event(ev)));
                    self.pos += 1;
                },
                Token::Equals => {
                    events.push(ArrayEvent::Equals);
                    assert(view_events(events@) =~= view_events(prev).push(SEvent::Equals));
                    self.pos += 1;
                },
            }
        }
        Ok(finish_array_items(events, has_top_level_newline))
    }

    /// An item of a list block (see `array_item_value`).
    fn parse_array_item_value(&mut self) -> (r: Result<Value, Hoi4ParserError>)
        requires
            old(self).ok(),
        ensures
            final(self).tokens == old(self).tokens,
            final(self).ok(),
            old(self).pos <= final(self).pos,
            match r {
                Ok(v) => array_item_value(old(self).ts(), old(self).pos as int) == Ok::<(SValue, int), Seq<char>>((view_value(v), final(self).pos as int))
                    && old(self).pos < final(self).pos,
                Err(e) => e is Parse && array_item_value(old(self).ts(), old(self).pos as int) == Err::<(SValue, int), Seq<char>>(e->Parse_message@),
            },
        decreases quotes_from(old(self).ts(), old(self).pos as int), old(self).tokens@.len() - old(self).pos, 5int,
    {
        let ghost ts = self.ts();
        if self.pos < self.tokens.len() && matches!(self.tokens[self.pos], Token::LBrace) {
            assert(ts[self.pos as int] == view_token(self.tokens@[self.pos as int]));
            self.pos += 1;
            self.parse_braced_value(true)
        } else {
            proof {
                if self.pos < self.tokens.len() {
                    assert(ts[self.pos as int] == view_token(self.tokens@[self.pos as int]));
                }
            }
            self.parse_value()
        }
    }

    fn expect_equals_or_operator(&mut self) -> (r: Result<Option<Vec<char>>, Hoi4ParserError>)
        requires
            old(self).ok(),
        ensures
            old(self).pos <= final(self).pos,
            final(self).tokens == old(self).tokens,
            final(self).ok(),
            match r {
                Ok(op) => expect_equals_or_operator(old(self).ts(), old(self).pos as int) == Ok::<(Option<Seq<char>>, int), Seq<char>>((
                    match op {
                        Some(o) => Some(o@),
                        None => None,
                    },
                    final(self).pos as int,
                )),
                Err(e) => e is Parse && expect_equals_or_operator(old(self).ts(), old(self).pos as int) == Err::<(Option<Seq<char>>, int), Seq<char>>(e->Parse_message@),
            },
    {
        self.skip_newlines();
        match self.peek() {
            Some(Token::Equals) => {
                self.pos += 1;
                Ok(None)
            },
            Some(Token::Ident(op)) => {
                if is_op_token_text(op) {
                    let mut operator = chars_of(op.as_str());
                    self.pos += 1;
                    if self.pos < self.tokens.len() && matches!(self.tokens[self.pos], Token::Equals) {
                        self.pos += 1;
                        operator.push('=');
                    }
                    Ok(Some(operator))
                } else {
                    Err(token_error("期望 '='，但遇到: ", &self.tokens[self.pos]))
                }
            },
            Some(token) => Err(token_error("期望 '='，但遇到: ", token)),
            None => Err(Hoi4ParserError::parse_error("期望 '='，但输入已结束")),
        }
    }
}

} // verus!

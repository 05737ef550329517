//! The inline markup of a localisation value: colors `§X..§!`, references `$key$`, scripted
//! expressions `[..]`, icons `£icon£` or `£icon`, and the escapes `\n`, `\t`.  Reading never
//! fails: an unclosed `$`, `[` or `£` stays text.

use vstd::prelude::*;

use crate::text::{chars_of, chars_range, push_all, string_of};

verus! {

/// One piece of an inline value.
#[derive(Debug, Clone, PartialEq, Eq)]
pub enum InlineNode {
    Text { value: String },
    Ref { key: String },
    ColorPush { code: char },
    ColorPop,
    Scope { expr: String },
    Icon { token: String },
    LineBreak,
    Tab,
}

/// The model of an inline piece.
pub enum SInline {
    Text(Seq<char>),
    Ref(Seq<char>),
    ColorPush(char),
    ColorPop,
    Scope(Seq<char>),
    Icon(Seq<char>),
    LineBreak,
    Tab,
}

pub open spec fn view_inline(n: InlineNode) -> SInline {
    match n {
        InlineNode::Text { value } => SInline::Text(value@),
        InlineNode::Ref { key } => SInline::Ref(key@),
        InlineNode::ColorPush { code } => SInline::ColorPush(code),
        InlineNode::ColorPop => SInline::ColorPop,
        InlineNode::Scope { expr } => SInline::Scope(expr@),
        InlineNode::Icon { token } => SInline::Icon(token@),
        InlineNode::LineBreak => SInline::LineBreak,
        InlineNode::Tab => SInline::Tab,
    }
}

pub open spec fn view_inlines(ns: Seq<InlineNode>) -> Seq<SInline> {
    ns.map_values(|n: InlineNode| view_inline(n))
}

pub open spec fn is_ascii_alnum_char(c: char) -> bool {
    ('0' <= c && c <= '9') || ('a' <= c && c <= 'z') || ('A' <= c && c <= 'Z')
}

/// A character of a `$key$` reference.
pub open spec fn is_ref_key_char(c: char) -> bool {
    is_ascii_alnum_char(c) || c == '_' || c == '.' || c == '-'
}

/// A character of an icon name.
pub open spec fn is_icon_char(c: char) -> bool {
    is_ascii_alnum_char(c) || c == '_'
}

/// The end of the run of reference-key characters of `cs` from `j`.
pub open spec fn ref_key_end(cs: Seq<char>, j: int) -> int
    decreases cs.len() - j,
{
    if 0 <= j < cs.len() && is_ref_key_char(cs[j]) {
        ref_key_end(cs, j + 1)
    } else {
        j
    }
}

/// The end of the run of icon characters of `cs` from `j`.
pub open spec fn icon_end(cs: Seq<char>, j: int) -> int
    decreases cs.len() - j,
{
    if 0 <= j < cs.len() && is_icon_char(cs[j]) {
        icon_end(cs, j + 1)
    } else {
        j
    }
}

/// The first `]`, line feed or carriage return of `cs` from `j` (or the length).
pub open spec fn bracket_stop(cs: Seq<char>, j: int) -> int
    decreases cs.len() - j,
{
    if 0 <= j < cs.len() && cs[j] != ']' && cs[j] != '\n' && cs[j] != '\r' {
        bracket_stop(cs, j + 1)
    } else {
        j
    }
}

pub proof fn lemma_ref_key_end(cs: Seq<char>, j: int)
    ensures
        ref_key_end(cs, j) >= j,
        forall|k: int| j <= k < ref_key_end(cs, j) ==> is_ref_key_char(#[trigger] cs[k]),
        0 <= j <= cs.len() ==> ref_key_end(cs, j) <= cs.len(),
        0 <= j ==> (ref_key_end(cs, j) < cs.len() ==> !is_ref_key_char(cs[ref_key_end(cs, j)])),
    decreases cs.len() - j,
{
    if 0 <= j < cs.len() && is_ref_key_char(cs[j]) {
        lemma_ref_key_end(cs, j + 1);
    }
}

pub proof fn lemma_icon_end(cs: Seq<char>, j: int)
    ensures
        icon_end(cs, j) >= j,
        forall|k: int| j <= k < icon_end(cs, j) ==> is_icon_char(#[trigger] cs[k]),
        0 <= j <= cs.len() ==> icon_end(cs, j) <= cs.len(),
        0 <= j ==> (icon_end(cs, j) < cs.len() ==> !is_icon_char(cs[icon_end(cs, j)])),
    decreases cs.len() - j,
{
    if 0 <= j < cs.len() && is_icon_char(cs[j]) {
        lemma_icon_end(cs, j + 1);
    }
}

pub proof fn lemma_bracket_stop(cs: Seq<char>, j: int)
    ensures
        bracket_stop(cs, j) >= j,
        0 <= j <= cs.len() ==> bracket_stop(cs, j) <= cs.len(),
        forall|k: int|
            j <= k < bracket_stop(cs, j) ==> #[trigger] cs[k] != ']' && cs[k] != '\n' && cs[k]
                != '\r',
    decreases cs.len() - j,
{
    if 0 <= j < cs.len() && cs[j] != ']' && cs[j] != '\n' && cs[j] != '\r' {
        lemma_bracket_stop(cs, j + 1);
    }
}

/// A reference `$key$` starting at `start`: the key and the index after the closing `$`.
pub open spec fn dollar_ref(cs: Seq<char>, start: int) -> Option<(Seq<char>, int)> {
    let j = ref_key_end(cs, start + 1);
    if j == start + 1 {
        None
    } else if j < cs.len() && cs[j] == '$' {
        Some((cs.subrange(start + 1, j), j + 1))
    } else {
        None
    }
}

/// A scripted expression `[..]` starting at `start`: the text inside and the index after `]`;
/// none when a line ends first.
pub open spec fn bracket_expr(cs: Seq<char>, start: int) -> Option<(Seq<char>, int)> {
    let j = bracket_stop(cs, start + 1);
    if j < cs.len() && cs[j] == ']' {
        Some((cs.subrange(start + 1, j), j + 1))
    } else {
        None
    }
}

/// An icon name starting at `start` (just after `£`): the name and the index after it and
/// after a closing `£`, if there is one.
pub open spec fn pound_icon(cs: Seq<char>, start: int) -> Option<(Seq<char>, int)> {
    let j = icon_end(cs, start);
    if j == start {
        None
    } else if j < cs.len() && cs[j] == '£' {
        Some((cs.subrange(start, j), j + 1))
    } else {
        Some((cs.subrange(start, j), j))
    }
}

/// `§!` closes a color; `§` and any other character opens that color.
pub open spec fn color_node(code: char) -> SInline {
    if code == '!' {
        SInline::ColorPop
    } else {
        SInline::ColorPush(code)
    }
}

/// The pending text as a node, when there is any.
pub open spec fn flush_text(text: Seq<char>) -> Seq<SInline> {
    if text.len() > 0 {
        seq![SInline::Text(text)]
    } else {
        seq![]
    }
}

/// The nodes read from `cs` at `i` with `text` pending.
pub open spec fn inline_from(cs: Seq<char>, i: int, text: Seq<char>) -> Seq<SInline>
    decreases cs.len() - i,
{
    if i < 0 || i >= cs.len() {
        flush_text(text)
    } else {
        let c = cs[i];
        if c == '\\' && i + 1 < cs.len() {
            let d = cs[i + 1];
            if d == 'n' {
                flush_text(text) + seq![SInline::LineBreak] + inline_from(cs, i + 2, seq![])
            } else if d == 't' {
                flush_text(text) + seq![SInline::Tab] + inline_from(cs, i + 2, seq![])
            } else if d == '"' {
                inline_from(cs, i + 2, text.push('"'))
            } else if d == '\\' {
                inline_from(cs, i + 2, text.push('\\'))
            } else {
                inline_from(cs, i + 2, text.push('\\').push(d))
            }
        } else if c == '§' {
            if i + 1 < cs.len() {
                flush_text(text) + seq![color_node(cs[i + 1])] + inline_from(cs, i + 2, seq![])
            } else {
                inline_from(cs, i + 1, text.push('§'))
            }
        } else if c == '$' && dollar_ref(cs, i) is Some {
            proof {
                lemma_ref_key_end(cs, i + 1);
            }
            let (key, next) = dollar_ref(cs, i)->0;
            flush_text(text) + seq![SInline::Ref(key)] + inline_from(cs, next, seq![])
        } else if c == '[' && bracket_expr(cs, i) is Some {
            proof {
                lemma_bracket_stop(cs, i + 1);
            }
            let (expr, next) = bracket_expr(cs, i)->0;
            flush_text(text) + seq![SInline::Scope(expr)] + inline_from(cs, next, seq![])
        } else if c == '£' && pound_icon(cs, i + 1) is Some {
            proof {
                lemma_icon_end(cs, i + 1);
            }
            let (token, next) = pound_icon(cs, i + 1)->0;
            flush_text(text) + seq![SInline::Icon(token)] + inline_from(cs, next, seq![])
        } else {
            inline_from(cs, i + 1, text.push(c))
        }
    }
}

/// The nodes of an inline value.
pub open spec fn spec_parse_inline(s: Seq<char>) -> Seq<SInline> {
    inline_from(s, 0, seq![])
}


/// Text nodes are never empty and never follow one another.
pub open spec fn text_runs_merged(ns: Seq<SInline>) -> bool {
    &&& forall|i: int| 0 <= i < ns.len() ==> ((#[trigger] ns[i]) matches SInline::Text(t) ==> t.len() > 0)
    &&& forall|i: int| 0 <= i < ns.len() - 1 ==> (#[trigger] ns[i]) is Text ==> !(ns[i + 1] is Text)
}

proof fn lemma_merged_step(text: Seq<char>, x: SInline, rest: Seq<SInline>)
    requires
        !(x is Text),
        text_runs_merged(rest),
    ensures
        text_runs_merged(flush_text(text) + seq![x] + rest),
{
    let a = flush_text(text) + seq![x];
    let ns = a + rest;
    assert forall|i: int| 0 <= i < ns.len() implies ((#[trigger] ns[i]) matches SInline::Text(t)
        ==> t.len() > 0) by {
        if i >= a.len() {
            assert(ns[i] == rest[i - a.len()]);
        }
    }
    assert forall|i: int| 0 <= i < ns.len() - 1 && (#[trigger] ns[i]) is Text implies !(ns[i
        + 1] is Text) by {
        if i >= a.len() {
            assert(ns[i] == rest[i - a.len()]);
            assert(ns[i + 1] == rest[i + 1 - a.len()]);
        } else if i == a.len() - 1 {
            assert(ns[i] == x);
        } else {
            assert(ns[i + 1] == x);
        }
    }
}

proof fn lemma_inline_from_merged(cs: Seq<char>, i: int, text: Seq<char>)
    ensures
        text_runs_merged(inline_from(cs, i, text)),
    decreases cs.len() - i,
{
    if i < 0 || i >= cs.len() {
        assert(text_runs_merged(flush_text(text)));
    } else {
        let c = cs[i];
        if c == '\\' && i + 1 < cs.len() {
            let d = cs[i + 1];
            if d == 'n' {
                lemma_inline_from_merged(cs, i + 2, seq![]);
                lemma_merged_step(text, SInline::LineBreak, inline_from(cs, i + 2, seq![]));
            } else if d == 't' {
                lemma_inline_from_merged(cs, i + 2, seq![]);
                lemma_merged_step(text, SInline::Tab, inline_from(cs, i + 2, seq![]));
            } else if d == '"' {
                lemma_inline_from_merged(cs, i + 2, text.push('"'));
            } else if d == '\\' {
                lemma_inline_from_merged(cs, i + 2, text.push('\\'));
            } else {
                lemma_inline_from_merged(cs, i + 2, text.push('\\').push(d));
            }
        } else if c == '§' {
            if i + 1 < cs.len() {
                lemma_inline_from_merged(cs, i + 2, seq![]);
                lemma_merged_step(text, color_node(cs[i + 1]), inline_from(cs, i + 2, seq![]));
            } else {
                lemma_inline_from_merged(cs, i + 1, text.push('§'));
            }
        } else if c == '$' && dollar_ref(cs, i) is Some {
            lemma_ref_key_end(cs, i + 1);
            let (key, next) = dollar_ref(cs, i)->0;
            lemma_inline_from_merged(cs, next, seq![]);
            lemma_merged_step(text, SInline::Ref(key), inline_from(cs, next, seq![]));
        } else if c == '[' && bracket_expr(cs, i) is Some {
            lemma_bracket_stop(cs, i + 1);
            let (expr, next) = bracket_expr(cs, i)->0;
            lemma_inline_from_merged(cs, next, seq![]);
            lemma_merged_step(text, SInline::Scope(expr), inline_from(cs, next, seq![]));
        } else if c == '£' && pound_icon(cs, i + 1) is Some {
            lemma_icon_end(cs, i + 1);
            let (token, next) = pound_icon(cs, i + 1)->0;
            lemma_inline_from_merged(cs, next, seq![]);
            lemma_merged_step(text, SInline::Icon(token), inline_from(cs, next, seq![]));
        } else {
            lemma_inline_from_merged(cs, i + 1, text.push(c));
        }
    }
}

/// What a node holds: a reference's key is a non-empty run of key characters, an icon's name
/// a non-empty run of icon characters, and a scripted expression holds no `]` and no line end.
pub open spec fn node_contents_ok(n: SInline) -> bool {
    match n {
        SInline::Ref(k) => k.len() > 0 && forall|m: int| 0 <= m < k.len() ==> is_ref_key_char(#[trigger] k[m]),
        SInline::Icon(t) => t.len() > 0 && forall|m: int| 0 <= m < t.len() ==> is_icon_char(#[trigger] t[m]),
        SInline::Scope(e) => forall|m: int|
            0 <= m < e.len() ==> #[trigger] e[m] != ']' && e[m] != '\n' && e[m] != '\r',
        _ => true,
    }
}

proof fn lemma_contents_step(text: Seq<char>, x: SInline, rest: Seq<SInline>)
    requires
        node_contents_ok(x),
        forall|k: int| 0 <= k < rest.len() ==> node_contents_ok(#[trigger] rest[k]),
    ensures
        forall|k: int|
            0 <= k < (flush_text(text) + seq![x] + rest).len() ==> node_contents_ok(
                #[trigger] (flush_text(text) + seq![x] + rest)[k],
            ),
{
    let a = flush_text(text) + seq![x];
    let ns = a + rest;
    assert forall|k: int| 0 <= k < ns.len() implies node_contents_ok(#[trigger] ns[k]) by {
        if k >= a.len() {
            assert(ns[k] == rest[k - a.len()]);
        } else if k == a.len() - 1 {
            assert(ns[k] == x);
        }
    }
}

proof fn lemma_inline_from_contents(cs: Seq<char>, i: int, text: Seq<char>)
    ensures
        forall|k: int|
            0 <= k < inline_from(cs, i, text).len() ==> node_contents_ok(
                #[trigger] inline_from(cs, i, text)[k],
            ),
    decreases cs.len() - i,
{
    if i < 0 || i >= cs.len() {
        assert forall|k: int| 0 <= k < flush_text(text).len() implies node_contents_ok(
            #[trigger] flush_text(text)[k],
        ) by {
            assert(flush_text(text)[k] == SInline::Text(text));
        }
    } else {
        let c = cs[i];
        if c == '\\' && i + 1 < cs.len() {
            let d = cs[i + 1];
            if d == 'n' {
                lemma_inline_from_contents(cs, i + 2, seq![]);
                lemma_contents_step(text, SInline::LineBreak, inline_from(cs, i + 2, seq![]));
            } else if d == 't' {
                lemma_inline_from_contents(cs, i + 2, seq![]);
                lemma_contents_step(text, SInline::Tab, inline_from(cs, i + 2, seq![]));
            } else if d == '"' {
                lemma_inline_from_contents(cs, i + 2, text.push('"'));
                assert(inline_from(cs, i, text) == inline_from(cs, i + 2, text.push('"')));
                assert forall|k: int| 0 <= k < inline_from(cs, i, text).len() implies node_contents_ok(
                    #[trigger] inline_from(cs, i, text)[k],
                ) by {
                    assert(inline_from(cs, i, text)[k] == inline_from(cs, i + 2, text.push('"'))[k]);
                }
            } else if d == '\\' {
                lemma_inline_from_contents(cs, i + 2, text.push('\\'));
                assert(inline_from(cs, i, text) == inline_from(cs, i + 2, text.push('\\')));
                assert forall|k: int| 0 <= k < inline_from(cs, i, text).len() implies node_contents_ok(
                    #[trigger] inline_from(cs, i, text)[k],
                ) by {
                    assert(inline_from(cs, i, text)[k] == inline_from(cs, i + 2, text.push('\\'))[k]);
                }
            } else {
                lemma_inline_from_contents(cs, i + 2, text.push('\\').push(d));
                assert(inline_from(cs, i, text) == inline_from(cs, i + 2, text.push('\\').push(d)));
                assert forall|k: int| 0 <= k < inline_from(cs, i, text).len() implies node_contents_ok(
                    #[trigger] inline_from(cs, i, text)[k],
                ) by {
                    assert(inline_from(cs, i, text)[k] == inline_from(cs, i + 2, text.push('\\').push(d))[k]);
                }
            }
        } else if c == '§' {
            if i + 1 < cs.len() {
                lemma_inline_from_contents(cs, i + 2, seq![]);
                lemma_contents_step(text, color_node(cs[i + 1]), inline_from(cs, i + 2, seq![]));
            } else {
                lemma_inline_from_contents(cs, i + 1, text.push('§'));
                assert(inline_from(cs, i, text) == inline_from(cs, i + 1, text.push('§')));
                assert forall|k: int| 0 <= k < inline_from(cs, i, text).len() implies node_contents_ok(
                    #[trigger] inline_from(cs, i, text)[k],
                ) by {
                    assert(inline_from(cs, i, text)[k] == inline_from(cs, i + 1, text.push('§'))[k]);
                }
            }
        } else if c == '$' && dollar_ref(cs, i) is Some {
            lemma_ref_key_end(cs, i + 1);
            let (key, next) = dollar_ref(cs, i)->0;
            assert forall|m: int| 0 <= m < key.len() implies is_ref_key_char(#[trigger] key[m]) by {
                assert(key[m] == cs[i + 1 + m]);
            }
            lemma_inline_from_contents(cs, next, seq![]);
            lemma_contents_step(text, SInline::Ref(key), inline_from(cs, next, seq![]));
            assert(inline_from(cs, i, text) == flush_text(text) + seq![SInline::Ref(key)]
                + inline_from(cs, next, seq![]));
        } else if c == '[' && bracket_expr(cs, i) is Some {
            lemma_bracket_stop(cs, i + 1);
            let (expr, next) = bracket_expr(cs, i)->0;
            assert forall|m: int| 0 <= m < expr.len() implies #[trigger] expr[m] != ']' && expr[m]
                != '\n' && expr[m] != '\r' by {
                assert(expr[m] == cs[i + 1 + m]);
            }
            lemma_inline_from_contents(cs, next, seq![]);
            lemma_contents_step(text, SInline::Scope(expr), inline_from(cs, next, seq![]));
        } else if c == '£' && pound_icon(cs, i + 1) is Some {
            lemma_icon_end(cs, i + 1);
            let (token, next) = pound_icon(cs, i + 1)->0;
            assert forall|m: int| 0 <= m < token.len() implies is_icon_char(#[trigger] token[m]) by {
                assert(token[m] == cs[i + 1 + m]);
            }
            lemma_inline_from_contents(cs, next, seq![]);
            lemma_contents_step(text, SInline::Icon(token), inline_from(cs, next, seq![]));
            assert(inline_from(cs, i, text) == flush_text(text) + seq![SInline::Icon(token)]
                + inline_from(cs, next, seq![]));
        } else {
            lemma_inline_from_contents(cs, i + 1, text.push(c));
            assert(inline_from(cs, i, text) == inline_from(cs, i + 1, text.push(c)));
            assert forall|k: int| 0 <= k < inline_from(cs, i, text).len() implies node_contents_ok(
                #[trigger] inline_from(cs, i, text)[k],
            ) by {
                assert(inline_from(cs, i, text)[k] == inline_from(cs, i + 1, text.push(c))[k]);
            }
        }
    }
}

/// Every reference that reading inline markup yields has a non-empty key of letters, digits,
/// `_`, `.` and `-`; every icon a non-empty name of letters, digits and `_`; and every
/// scripted expression holds no `]` and no line end.
pub proof fn lemma_parse_inline_node_contents(s: Seq<char>)
    ensures
        forall|k: int|
            0 <= k < spec_parse_inline(s).len() ==> node_contents_ok(#[trigger] spec_parse_inline(s)[k]),
{
    lemma_inline_from_contents(s, 0, seq![]);
}

/// Reading inline markup never yields an empty text node, nor two text nodes in a row: text
/// between markup is gathered into one node.
pub proof fn lemma_parse_inline_merges_text(s: Seq<char>)
    ensures
        text_runs_merged(spec_parse_inline(s)),
{
    lemma_inline_from_merged(s, 0, seq![]);
}

fn is_ref_key_char_exec(c: char) -> (r: bool)
    ensures
        r == is_ref_key_char(c),
{
    ('0' <= c && c <= '9') || ('a' <= c && c <= 'z') || ('A' <= c && c <= 'Z') || c == '_' || c
        == '.' || c == '-'
}

fn is_icon_char_exec(c: char) -> (r: bool)
    ensures
        r == is_icon_char(c),
{
    ('0' <= c && c <= '9') || ('a' <= c && c <= 'z') || ('A' <= c && c <= 'Z') || c == '_'
}

/// A reference `$key$` at `start` (see `dollar_ref`).
fn take_dollar_ref(cs: &[char], start: usize) -> (r: Option<(Vec<char>, usize)>)
    requires
        start < cs@.len(),
    ensures
        match r {
            Some((k, n)) => dollar_ref(cs@, start as int) == Some((k@, n as int)),
            None => dollar_ref(cs@, start as int) is None,
        },
{
    let n = cs.len();
    let mut j = start + 1;
    while j < n && is_ref_key_char_exec(cs[j])
        invariant
            start + 1 <= j <= cs@.len(),
            n == cs@.len(),
            ref_key_end(cs@, start + 1) == ref_key_end(cs@, j as int),
        decreases cs.len() - j,
    {
        j += 1;
    }
    if j == start + 1 {
        return None;
    }
    if j < cs.len() && cs[j] == '$' {
        Some((chars_range(cs, start + 1, j), j + 1))
    } else {
        None
    }
}

/// A scripted expression `[..]` at `start` (see `bracket_expr`).
fn take_bracket_expr(cs: &[char], start: usize) -> (r: Option<(Vec<char>, usize)>)
    requires
        start < cs@.len(),
    ensures
        match r {
            Some((e, n)) => bracket_expr(cs@, start as int) == Some((e@, n as int)),
            None => bracket_expr(cs@, start as int) is None,
        },
{
    let n = cs.len();
    let mut j = start + 1;
    while j < n && cs[j] != ']' && cs[j] != '\n' && cs[j] != '\r'
        invariant
            start + 1 <= j <= cs@.len(),
            n == cs@.len(),
            bracket_stop(cs@, start + 1) == bracket_stop(cs@, j as int),
        decreases cs.len() - j,
    {
        j += 1;
    }
    if j < cs.len() && cs[j] == ']' {
        Some((chars_range(cs, start + 1, j), j + 1))
    } else {
        None
    }
}

/// An icon name from `start` (see `pound_icon`).
fn take_pound_icon(cs: &[char], start: usize) -> (r: Option<(Vec<char>, usize)>)
    requires
        start <= cs@.len(),
    ensures
        match r {
            Some((t, n)) => pound_icon(cs@, start as int) == Some((t@, n as int)),
            None => pound_icon(cs@, start as int) is None,
        },
{
    let mut j = start;
    while j < cs.len() && is_icon_char_exec(cs[j])
        invariant
            start <= j <= cs@.len(),
            icon_end(cs@, start as int) == icon_end(cs@, j as int),
        decreases cs.len() - j,
    {
        j += 1;
    }
    if j == start {
        return None;
    }
    let token = chars_range(cs, start, j);
    if j < cs.len() && cs[j] == '£' {
        Some((token, j + 1))
    } else {
        Some((token, j))
    }
}

/// Moves the pending text, if any, into a text node.
fn flush(text: &mut Vec<char>, out: &mut Vec<InlineNode>)
    ensures
        view_inlines(final(out)@) == view_inlines(old(out)@) + flush_text(old(text)@),
        final(text)@ == Seq::<char>::empty(),
{
    if text.len() > 0 {
        let value = string_of(text.as_slice());
        let ghost before = out@;
        out.push(InlineNode::Text { value });
        assert(view_inlines(out@) =~= view_inlines(before) + flush_text(old(text)@));
        *text = Vec::new();
    } else {
        assert(view_inlines(out@) =~= view_inlines(old(out)@) + flush_text(old(text)@));
    }
}

/// Appends one node.
fn emit(out: &mut Vec<InlineNode>, n: InlineNode)
    ensures
        view_inlines(final(out)@) == view_inlines(old(out)@) + seq![view_inline(n)],
{
    let ghost before = out@;
    out.push(n);
    assert(view_inlines(out@) =~= view_inlines(before) + seq![view_inline(n)]);
}

/// Reads the piece of markup at `i`: either a node (after the pending text) or more pending
/// text.  Returns where reading goes on.
fn inline_step(cs: &[char], i: usize, text: &mut Vec<char>, out: &mut Vec<InlineNode>) -> (next: usize)
    requires
        i < cs@.len(),
    ensures
        i < next <= cs@.len(),
        view_inlines(final(out)@) + inline_from(cs@, next as int, final(text)@) == view_inlines(
            old(out)@,
        ) + inline_from(cs@, i as int, old(text)@),
{
    let n = cs.len();
    let c = cs[i];
    if c == '\\' && i + 1 < n {
        let d = cs[i + 1];
        if d == 'n' {
            flush(text, out);
            emit(out, InlineNode::LineBreak);
            assert(view_inlines(out@) + inline_from(cs@, i + 2, text@) =~= view_inlines(old(out)@)
                + inline_from(cs@, i as int, old(text)@));
        } else if d == 't' {
            flush(text, out);
            emit(out, InlineNode::Tab);
            assert(view_inlines(out@) + inline_from(cs@, i + 2, text@) =~= view_inlines(old(out)@)
                + inline_from(cs@, i as int, old(text)@));
        } else if d == '"' {
            text.push('"');
            assert(inline_from(cs@, i as int, old(text)@) == inline_from(cs@, i + 2, text@));
            assert(view_inlines(out@) + inline_from(cs@, i + 2, text@) =~= view_inlines(old(out)@)
                + inline_from(cs@, i as int, old(text)@));
        } else if d == '\\' {
            text.push('\\');
            assert(view_inlines(out@) + inline_from(cs@, i + 2, text@) =~= view_inlines(old(out)@)
                + inline_from(cs@, i as int, old(text)@));
        } else {
            text.push('\\');
            text.push(d);
            assert(view_inlines(out@) + inline_from(cs@, i + 2, text@) =~= view_inlines(old(out)@)
                + inline_from(cs@, i as int, old(text)@));
        }
        return i + 2;
    }
    if c == '§' && i + 1 < n {
        let code = cs[i + 1];
        flush(text, out);
        if code == '!' {
            emit(out, InlineNode::ColorPop);
        } else {
            emit(out, InlineNode::ColorPush { code });
        }
        assert(view_inlines(out@) + inline_from(cs@, i + 2, text@) =~= view_inlines(old(out)@)
            + inline_from(cs@, i as int, old(text)@));
        return i + 2;
    }
    if c == '$' {
        if let Some((key, next)) = take_dollar_ref(cs, i) {
            proof {
                lemma_ref_key_end(cs@, i + 1);
            }
            flush(text, out);
            emit(out, InlineNode::Ref { key: string_of(key.as_slice()) });
            return next;
        }
    } else if c == '[' {
        if let Some((expr, next)) = take_bracket_expr(cs, i) {
            proof {
                lemma_bracket_stop(cs@, i + 1);
            }
            flush(text, out);
            emit(out, InlineNode::Scope { expr: string_of(expr.as_slice()) });
            return next;
        }
    } else if c == '£' {
        if let Some((token, next)) = take_pound_icon(cs, i + 1) {
            proof {
                lemma_icon_end(cs@, i + 1);
            }
            flush(text, out);
            emit(out, InlineNode::Icon { token: string_of(token.as_slice()) });
            return next;
        }
    }
    text.push(c);
    i + 1
}

/// Reads the inline markup of a localisation value into nodes (see `spec_parse_inline`).
pub fn parse_inline(input: &str) -> (r: Vec<InlineNode>)
    ensures
        view_inlines(r@) == spec_parse_inline(input@),
{
    let cs = chars_of(input);
    parse_inline_chars(cs.as_slice())
}

/// Reads the inline markup held in `cs` (see `spec_parse_inline`).
pub fn parse_inline_chars(cs: &[char]) -> (r: Vec<InlineNode>)
    ensures
        view_inlines(r@) == spec_parse_inline(cs@),
{
    let ghost goal = inline_from(cs@, 0, seq![]);
    let mut out: Vec<InlineNode> = Vec::new();
    let mut text: Vec<char> = Vec::new();
    let mut i: usize = 0;
    assert(view_inlines(out@) + inline_from(cs@, 0, text@) =~= goal);
    while i < cs.len()
        invariant
            i <= cs@.len(),
            view_inlines(out@) + inline_from(cs@, i as int, text@) == goal,
        decreases cs.len() - i,
    {
        i = inline_step(cs, i, &mut text, &mut out);
    }
    flush(&mut text, &mut out);
    assert(view_inlines(out@) =~= goal);
    out
}

} // verus!

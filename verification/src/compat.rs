use vstd::prelude::*;

use crate::ast::{view_entry, view_value, Entry, SEntry, Value};
use crate::text::{
    char_is_alphanumeric, chars_of, find_char_from, is_ascii_alnum, join, lines, push_chars,
    rewrite, rewrite_exec, rules_view, split_lines, string_of, trim, trim_bounds,
    unicode_alphanumeric, ascii_alnum, contains_char, contains_exec, contains_seq, find_from,
    lemma_find_from, lemma_match_rule_ok, lemma_rewrite_first, lemma_rewrite_keep, match_rule,
    occurs_at, lemma_rewrite_unmatched, rewrite_from, lemma_rewrite_identity, lemma_trim_start_suffix,
    trim_end, trim_start, unicode_whitespace,
};

verus! {

/// The key an entry is exported under: with the duplicate suffix appended when asked for
/// and recorded.
pub open spec fn spec_export_key(e: SEntry, with_duplicate_suffix: bool) -> Seq<char> {
    if with_duplicate_suffix && e.meta.duplicate_suffix is Some {
        e.key + e.meta.duplicate_suffix->0
    } else {
        e.key
    }
}

/// The key of `entry` for export; with `with_duplicate_suffix`, a repeated key gets its
/// `$$HEX` suffix so that keys stay distinct.
pub fn export_key(entry: &Entry, with_duplicate_suffix: bool) -> (r: String)
    ensures
        r@ == spec_export_key(view_entry(*entry), with_duplicate_suffix),
{
    if with_duplicate_suffix {
        if let Some(suffix) = &entry.metadata.duplicate_suffix {
            let mut out = entry.key.clone();
            out.append(suffix.as_str());
            return out;
        }
    }
    entry.key.clone()
}

/// The exported key of `entry` together with a copy of its value.
pub fn export_entry(entry: &Entry, with_duplicate_suffix: bool) -> (r: (String, Value))
    ensures
        r.0@ == spec_export_key(view_entry(*entry), with_duplicate_suffix),
        view_value(r.1) == view_value(entry.value),
{
    (export_key(entry, with_duplicate_suffix), entry.value.deep_clone())
}

/// The markers that the generator writes in place of symbols, and the symbols they stand
/// for, as the parser reads them back.
pub open spec fn parse_marker_rules() -> Seq<(Seq<char>, Seq<char>)> {
    seq![
        (seq!['%', '%'], seq!['[']),
        (seq!['!', '!'], seq![']']),
        (seq!['-', '-'], seq![':']),
        (seq!['&', 'g', 't', 'e', ';'], seq!['>', '=']),
        (seq!['&', 'l', 't', 'e', ';'], seq!['<', '=']),
        (seq!['&', 'e', 'q', 'e', 'q', ';'], seq!['=', '=']),
        (seq!['&', 'g', 't', ';'], seq!['>']),
        (seq!['&', 'l', 't', ';'], seq!['<']),
    ]
}

/// The symbols that the generator escapes, and their markers.
pub open spec fn escape_rules() -> Seq<(Seq<char>, Seq<char>)> {
    seq![
        (seq!['>', '='], seq!['&', 'g', 't', 'e', ';']),
        (seq!['<', '='], seq!['&', 'l', 't', 'e', ';']),
        (seq!['=', '='], seq!['&', 'e', 'q', 'e', 'q', ';']),
        (seq![':'], seq!['-', '-']),
        (seq!['['], seq!['%', '%']),
        (seq![']'], seq!['!', '!']),
        (seq!['>'], seq!['&', 'g', 't', ';']),
        (seq!['<'], seq!['&', 'l', 't', ';']),
    ]
}

/// The markers restored in rendered output; an escaped operator that follows `= ` replaces
/// the `= ` too.
pub open spec fn restore_rules() -> Seq<(Seq<char>, Seq<char>)> {
    seq![
        (seq!['=', ' ', '&', 'g', 't', 'e', ';'], seq!['>', '=']),
        (seq!['=', ' ', '&', 'l', 't', 'e', ';'], seq!['<', '=']),
        (seq!['=', ' ', '&', 'e', 'q', 'e', 'q', ';'], seq!['=', '=']),
        (seq!['=', ' ', '&', 'g', 't', ';'], seq!['>']),
        (seq!['=', ' ', '&', 'l', 't', ';'], seq!['<']),
        (seq!['&', 'g', 't', ';'], seq!['>']),
        (seq!['&', 'l', 't', ';'], seq!['<']),
        (seq!['%', '%'], seq!['[']),
        (seq!['!', '!'], seq![']']),
        (seq!['-', '-'], seq![':']),
    ]
}

fn parse_marker_rules_exec() -> (r: Vec<(Vec<char>, Vec<char>)>)
    ensures
        rules_view(r@) == parse_marker_rules(),
{
    let r = vec![
        (vec!['%', '%'], vec!['[']),
        (vec!['!', '!'], vec![']']),
        (vec!['-', '-'], vec![':']),
        (vec!['&', 'g', 't', 'e', ';'], vec!['>', '=']),
        (vec!['&', 'l', 't', 'e', ';'], vec!['<', '=']),
        (vec!['&', 'e', 'q', 'e', 'q', ';'], vec!['=', '=']),
        (vec!['&', 'g', 't', ';'], vec!['>']),
        (vec!['&', 'l', 't', ';'], vec!['<']),
    ];
    assert(rules_view(r@)[0] == parse_marker_rules()[0]);
    assert(rules_view(r@)[1] == parse_marker_rules()[1]);
    assert(rules_view(r@)[2] == parse_marker_rules()[2]);
    assert(rules_view(r@)[3] == parse_marker_rules()[3]);
    assert(rules_view(r@)[4] == parse_marker_rules()[4]);
    assert(rules_view(r@)[5] == parse_marker_rules()[5]);
    assert(rules_view(r@)[6] == parse_marker_rules()[6]);
    assert(rules_view(r@)[7] == parse_marker_rules()[7]);
    assert(rules_view(r@) =~= parse_marker_rules());
    r
}

fn escape_rules_exec() -> (r: Vec<(Vec<char>, Vec<char>)>)
    ensures
        rules_view(r@) == escape_rules(),
{
    let r = vec![
        (vec!['>', '='], vec!['&', 'g', 't', 'e', ';']),
        (vec!['<', '='], vec!['&', 'l', 't', 'e', ';']),
        (vec!['=', '='], vec!['&', 'e', 'q', 'e', 'q', ';']),
        (vec![':'], vec!['-', '-']),
        (vec!['['], vec!['%', '%']),
        (vec![']'], vec!['!', '!']),
        (vec!['>'], vec!['&', 'g', 't', ';']),
        (vec!['<'], vec!['&', 'l', 't', ';']),
    ];
    assert(rules_view(r@)[0] == escape_rules()[0]);
    assert(rules_view(r@)[1] == escape_rules()[1]);
    assert(rules_view(r@)[2] == escape_rules()[2]);
    assert(rules_view(r@)[3] == escape_rules()[3]);
    assert(rules_view(r@)[4] == escape_rules()[4]);
    assert(rules_view(r@)[5] == escape_rules()[5]);
    assert(rules_view(r@)[6] == escape_rules()[6]);
    assert(rules_view(r@)[7] == escape_rules()[7]);
    assert(rules_view(r@) =~= escape_rules());
    r
}

fn restore_rules_exec() -> (r: Vec<(Vec<char>, Vec<char>)>)
    ensures
        rules_view(r@) == restore_rules(),
{
    let r = vec![
        (vec!['=', ' ', '&', 'g', 't', 'e', ';'], vec!['>', '=']),
        (vec!['=', ' ', '&', 'l', 't', 'e', ';'], vec!['<', '=']),
        (vec!['=', ' ', '&', 'e', 'q', 'e', 'q', ';'], vec!['=', '=']),
        (vec!['=', ' ', '&', 'g', 't', ';'], vec!['>']),
        (vec!['=', ' ', '&', 'l', 't', ';'], vec!['<']),
        (vec!['&', 'g', 't', ';'], vec!['>']),
        (vec!['&', 'l', 't', ';'], vec!['<']),
        (vec!['%', '%'], vec!['[']),
        (vec!['!', '!'], vec![']']),
        (vec!['-', '-'], vec![':']),
    ];
    assert(rules_view(r@)[0] == restore_rules()[0]);
    assert(rules_view(r@)[1] == restore_rules()[1]);
    assert(rules_view(r@)[2] == restore_rules()[2]);
    assert(rules_view(r@)[3] == restore_rules()[3]);
    assert(rules_view(r@)[4] == restore_rules()[4]);
    assert(rules_view(r@)[5] == restore_rules()[5]);
    assert(rules_view(r@)[6] == restore_rules()[6]);
    assert(rules_view(r@)[7] == restore_rules()[7]);
    assert(rules_view(r@)[8] == restore_rules()[8]);
    assert(rules_view(r@)[9] == restore_rules()[9]);
    assert(rules_view(r@) =~= restore_rules());
    r
}

/// A character that may stand in a single script token.
pub open spec fn is_token_char(c: char) -> bool {
    unicode_alphanumeric(c) || c == '_' || c == '-' || c == '.' || c == ':' || c == '\''
        || c == '\u{2019}'
}

fn token_char(c: char) -> (r: bool)
    ensures
        r == is_token_char(c),
{
    char_is_alphanumeric(c) || c == '_' || c == '-' || c == '.' || c == ':' || c == '\''
        || c == '\u{2019}'
}

/// A trailing comma is a typo when what stands before it is one non-empty script token
/// (`trait_cautious,`); then it is dropped.
pub open spec fn spec_strip_trailing_comma(s: Seq<char>) -> Seq<char> {
    if s.len() > 1 && s.last() == ',' && (forall|i: int|
        0 <= i < s.len() - 1 ==> #[trigger] is_token_char(s[i])) {
        s.drop_last()
    } else {
        s
    }
}

/// The reading of a scalar: markers decoded back into symbols, then a typo comma dropped.
pub open spec fn spec_normalize(s: Seq<char>) -> Seq<char> {
    spec_strip_trailing_comma(rewrite(s, parse_marker_rules()))
}

/// The escaping of a scalar for output.
pub open spec fn spec_escape(s: Seq<char>) -> Seq<char> {
    rewrite(s, escape_rules())
}

/// A character that the markers are made of.
pub open spec fn is_marker_char(c: char) -> bool {
    c == '-' || c == '%' || c == '!' || c == '&'
}

proof fn lemma_not_occurs(x: Seq<char>, q: Seq<char>, d: int)
    requires
        0 <= d < q.len(),
        d < x.len(),
        x[d] != q[d],
    ensures
        !occurs_at(x, 0, q),
{
    if occurs_at(x, 0, q) {
        assert(x.subrange(0, q.len() as int)[d] == x[d]);
    }
}

proof fn lemma_occurs_prefix(m: Seq<char>, rest: Seq<char>)
    ensures
        occurs_at(m + rest, 0, m),
{
    assert((m + rest).subrange(0, m.len() as int) =~= m);
}

/// The marker of the `k`-th escape rule is read back as the symbols it stands for.
proof fn lemma_read_marker(k: int, rest: Seq<char>)
    requires
        0 <= k < 8,
    ensures
        rewrite(escape_rules()[k].1 + rest, parse_marker_rules()) == escape_rules()[k].0 + rewrite(
            rest,
            parse_marker_rules(),
        ),
{
    reveal_with_fuel(match_rule, 9);
    let d = parse_marker_rules();
    let m = escape_rules()[k].1;
    let x = m + rest;
    lemma_occurs_prefix(m, rest);
    let j: int = if k == 0 {
        3
    } else if k == 1 {
        4
    } else if k == 2 {
        5
    } else if k == 3 {
        2
    } else if k == 4 {
        0
    } else if k == 5 {
        1
    } else if k == 6 {
        6
    } else {
        7
    };
    assert(d[j].0 == m);
    assert(d[j].1 == escape_rules()[k].0);
    assert(x[0] == m[0]);
    assert(x[1] == m[1]);
    if m.len() > 3 {
        assert(x[3] == m[3]);
    }
    if j > 0 {
        lemma_not_occurs(x, d[0].0, 0);
    }
    if j > 1 {
        lemma_not_occurs(x, d[1].0, 0);
    }
    if j > 2 {
        lemma_not_occurs(x, d[2].0, 0);
    }
    if j > 3 {
        lemma_not_occurs(x, d[3].0, if k == 6 { 3 } else { 1 });
    }
    if j > 4 {
        lemma_not_occurs(x, d[4].0, if k == 7 { 3 } else { 1 });
    }
    if j > 5 {
        lemma_not_occurs(x, d[5].0, 1);
    }
    if j > 6 {
        lemma_not_occurs(x, d[6].0, 1);
    }
    assert(match_rule(x, 0, d, 0) == Some(j));
    lemma_rewrite_first(x, d, j);
    assert(x.skip(m.len() as int) =~= rest);
}

/// A character that no marker starts with is read back as itself.
proof fn lemma_read_plain(c: char, rest: Seq<char>)
    requires
        !is_marker_char(c),
    ensures
        rewrite(seq![c] + rest, parse_marker_rules()) == seq![c] + rewrite(rest, parse_marker_rules()),
{
    reveal_with_fuel(match_rule, 9);
    let d = parse_marker_rules();
    let x = seq![c] + rest;
    assert(x[0] == c);
    lemma_not_occurs(x, d[0].0, 0);
    lemma_not_occurs(x, d[1].0, 0);
    lemma_not_occurs(x, d[2].0, 0);
    lemma_not_occurs(x, d[3].0, 0);
    lemma_not_occurs(x, d[4].0, 0);
    lemma_not_occurs(x, d[5].0, 0);
    lemma_not_occurs(x, d[6].0, 0);
    lemma_not_occurs(x, d[7].0, 0);
    assert(match_rule(x, 0, d, 0) is None);
    lemma_rewrite_keep(x, d);
    assert(x.skip(1) =~= rest);
}

/// Decoding the markers of escaped text gives the text back, when it holds no character that
/// markers are made of.
proof fn lemma_decode_escape(s: Seq<char>)
    requires
        forall|i: int| 0 <= i < s.len() ==> !is_marker_char(#[trigger] s[i]),
    ensures
        rewrite(spec_escape(s), parse_marker_rules()) == s,
    decreases s.len(),
{
    let e = escape_rules();
    if s.len() == 0 {
        assert(spec_escape(s) =~= Seq::<char>::empty());
        assert(rewrite(Seq::<char>::empty(), parse_marker_rules()) =~= s);
    } else {
        lemma_match_rule_ok(s, 0, e, 0);
        match match_rule(s, 0, e, 0) {
            Some(k) => {
                let n = e[k].0.len() as int;
                lemma_rewrite_first(s, e, k);
                let t = s.skip(n);
                assert forall|i: int| 0 <= i < t.len() implies !is_marker_char(#[trigger] t[i]) by {
                    assert(t[i] == s[i + n]);
                }
                lemma_read_marker(k, rewrite(t, e));
                lemma_decode_escape(t);
                assert(s.subrange(0, n) == e[k].0);
                assert(e[k].0 + t =~= s);
            },
            None => {
                lemma_rewrite_keep(s, e);
                let t = s.skip(1);
                assert forall|i: int| 0 <= i < t.len() implies !is_marker_char(#[trigger] t[i]) by {
                    assert(t[i] == s[i + 1]);
                }
                lemma_read_plain(s[0], rewrite(t, e));
                lemma_decode_escape(t);
                assert(seq![s[0]] + t =~= s);
            },
        }
    }
}

/// Reading back an escaped scalar gives the scalar again, when it holds none of the
/// characters that markers are made of (`-`, `%`, `!`, `&`) and does not end with a comma.
pub proof fn lemma_normalize_escape(s: Seq<char>)
    requires
        forall|i: int| 0 <= i < s.len() ==> !is_marker_char(#[trigger] s[i]),
        !(s.len() > 0 && s.last() == ','),
    ensures
        spec_normalize(spec_escape(s)) == s,
{
    lemma_decode_escape(s);
}

/// A symbol that escaping always replaces.
pub open spec fn is_escaped_symbol(c: char) -> bool {
    c == '>' || c == '<' || c == ':' || c == '[' || c == ']'
}

/// Escaped text from `i` holds no escaped symbol and no `==`; it starts with `=` only where
/// the text does.
proof fn lemma_escape_output(s: Seq<char>, i: int)
    requires
        0 <= i,
    ensures
        forall|m: int|
            0 <= m < rewrite_from(s, i, escape_rules()).len() ==> !is_escaped_symbol(
                #[trigger] rewrite_from(s, i, escape_rules())[m],
            ),
        forall|m: int|
            0 <= m < rewrite_from(s, i, escape_rules()).len() - 1 ==> !(#[trigger] rewrite_from(
                s,
                i,
                escape_rules(),
            )[m] == '=' && rewrite_from(s, i, escape_rules())[m + 1] == '='),
        rewrite_from(s, i, escape_rules()).len() > 0 && rewrite_from(s, i, escape_rules())[0]
            == '=' ==> i < s.len() && s[i] == '=',
    decreases s.len() - i,
{
    let rules = escape_rules();
    let o = rewrite_from(s, i, rules);
    if i < s.len() {
        lemma_match_rule_ok(s, i, rules, 0);
        match match_rule(s, i, rules, 0) {
            Some(k) => {
                let n = rules[k].0.len() as int;
                lemma_escape_output(s, i + n);
                let rep = rules[k].1;
                let rest = rewrite_from(s, i + n, rules);
                assert(o == rep + rest);
                assert(rep.len() > 0);
                assert forall|m: int| 0 <= m < rep.len() implies #[trigger] rep[m] != '=' && !is_escaped_symbol(rep[m]) by {
                    assert(0 <= k < 8);
                }
                assert forall|m: int| 0 <= m < o.len() implies !is_escaped_symbol(#[trigger] o[m]) by {
                    if m >= rep.len() {
                        assert(o[m] == rest[m - rep.len()]);
                    }
                }
                assert forall|m: int| 0 <= m < o.len() - 1 implies !(#[trigger] o[m] == '=' && o[m + 1] == '=') by {
                    if m >= rep.len() {
                        assert(o[m] == rest[m - rep.len()]);
                        assert(o[m + 1] == rest[m + 1 - rep.len()]);
                    } else {
                        assert(o[m] == rep[m]);
                    }
                }
            },
            None => {
                lemma_escape_output(s, i + 1);
                let c = s[i];
                let rest = rewrite_from(s, i + 1, rules);
                assert(o == seq![c] + rest);
                assert(!is_escaped_symbol(c)) by {
                    if is_escaped_symbol(c) {
                        let k: int = if c == ':' { 3 } else if c == '[' { 4 } else if c == ']' { 5 } else if c == '>' { 6 } else { 7 };
                        assert(s.subrange(i, i + 1) =~= rules[k].0);
                        assert(occurs_at(s, i, rules[k].0));
                    }
                }
                assert forall|m: int| 0 <= m < o.len() implies !is_escaped_symbol(#[trigger] o[m]) by {
                    if m >= 1 {
                        assert(o[m] == rest[m - 1]);
                    }
                }
                assert forall|m: int| 0 <= m < o.len() - 1 implies !(#[trigger] o[m] == '=' && o[m + 1] == '=') by {
                    if m >= 1 {
                        assert(o[m] == rest[m - 1]);
                        assert(o[m + 1] == rest[m]);
                    } else if c == '=' && rest[0] == '=' {
                        assert(s.subrange(i, i + 2) =~= rules[2].0);
                        assert(occurs_at(s, i, rules[2].0));
                    }
                }
            },
        }
    }
}

/// The text holds no symbol that escaping replaces and no `==`.
pub open spec fn escape_free(s: Seq<char>) -> bool {
    &&& forall|m: int| 0 <= m < s.len() ==> !is_escaped_symbol(#[trigger] s[m])
    &&& forall|m: int| 0 <= m < s.len() - 1 ==> !(#[trigger] s[m] == '=' && s[m + 1] == '=')
}

/// A text free of escaped symbols and `==` is left as it is by escaping.
proof fn lemma_escape_free_unchanged(o: Seq<char>)
    requires
        escape_free(o),
    ensures
        spec_escape(o) == o,
{
    let rules = escape_rules();
    assert forall|i: int, k: int|
        0 <= k < rules.len() && rules[k].0.len() > 0 implies !#[trigger] occurs_at(o, i, rules[k].0) by {
        let pat = rules[k].0;
        if occurs_at(o, i, pat) {
            assert(o.subrange(i, i + pat.len())[0] == o[i]);
            if k == 2 {
                assert(o.subrange(i, i + pat.len())[1] == o[i + 1]);
            }
        }
    }
    lemma_rewrite_unmatched(o, rules);
}

/// Escaped text holds no symbol that escaping replaces (`>`, `<`, `:`, `[`, `]`) and no
/// `==`, so escaping it again changes nothing; and escaping leaves a text as it is exactly
/// when the text already holds none of them.
pub proof fn lemma_escape_idempotent(s: Seq<char>)
    ensures
        escape_free(spec_escape(s)),
        spec_escape(spec_escape(s)) == spec_escape(s),
        spec_escape(s) == s <==> escape_free(s),
{
    lemma_escape_output(s, 0);
    lemma_escape_free_unchanged(spec_escape(s));
    if escape_free(s) {
        lemma_escape_free_unchanged(s);
    }
}

/// A comparison sign that escaping replaces: `>=`, `<=`, `==`, `>` or `<`.
pub open spec fn is_sign_text(op: Seq<char>) -> bool {
    op == seq!['>', '='] || op == seq!['<', '='] || op == seq!['=', '='] || op == seq!['>']
        || op == seq!['<']
}

/// Rewriting keeps a prefix none of whose characters starts a pattern.
proof fn lemma_rewrite_prefix_kept(a: Seq<char>, b: Seq<char>, rules: Seq<(Seq<char>, Seq<char>)>)
    requires
        forall|i: int, k: int|
            0 <= i < a.len() && 0 <= k < rules.len() && rules[k].0.len() > 0 ==> rules[k].0[0]
                != #[trigger] a[i] || #[trigger] rules[k].0.len() == 0,
    ensures
        rewrite(a + b, rules) == a + rewrite(b, rules),
    decreases a.len(),
{
    if a.len() > 0 {
        let ab = a + b;
        lemma_match_rule_ok(ab, 0, rules, 0);
        if match_rule(ab, 0, rules, 0) is Some {
            let k = match_rule(ab, 0, rules, 0)->0;
            assert(ab.subrange(0, rules[k].0.len() as int)[0] == ab[0]);
            assert(ab[0] == a[0]);
        }
        lemma_rewrite_keep(ab, rules);
        let a1 = a.skip(1);
        assert forall|i: int, k: int|
            0 <= i < a1.len() && 0 <= k < rules.len() && rules[k].0.len() > 0 implies rules[k].0[0]
                != #[trigger] a1[i] || #[trigger] rules[k].0.len() == 0 by {
            assert(a1[i] == a[i + 1]);
        }
        lemma_rewrite_prefix_kept(a1, b, rules);
        assert(ab.skip(1) =~= a1 + b);
        assert(seq![a[0]] + (a1 + rewrite(b, rules)) =~= a + rewrite(b, rules));
    }
}

proof fn lemma_occurs_at_start(t: Seq<char>, pat: Seq<char>)
    requires
        pat.len() <= t.len(),
        forall|i: int| 0 <= i < pat.len() ==> t[i] == pat[i],
    ensures
        occurs_at(t, 0, pat),
{
    assert(t.subrange(0, pat.len() as int) =~= pat);
}

proof fn lemma_not_occurs_at_start(t: Seq<char>, pat: Seq<char>, i: int)
    requires
        0 <= i < pat.len(),
        i >= t.len() || t[i] != pat[i],
    ensures
        !occurs_at(t, 0, pat),
{
    if occurs_at(t, 0, pat) {
        assert(t.subrange(0, pat.len() as int)[i] == t[i]);
    }
}

/// Trimming the end keeps the first character.
proof fn lemma_trim_end_first(y: Seq<char>)
    ensures
        trim_end(y).len() > 0 ==> trim_end(y)[0] == y[0],
        trim_end(y).len() <= y.len(),
    decreases y.len(),
{
    if y.len() > 0 && unicode_whitespace(y.last()) {
        lemma_trim_end_first(y.drop_last());
    }
}

/// A line without quotes is left as it is by unquoting.
proof fn lemma_unquote_without_quotes(line: Seq<char>)
    requires
        !line.contains('"'),
    ensures
        spec_unquote_macro_line(line) == line,
{
    let eq = find_from(line, 0, '=');
    lemma_find_from(line, 0, '=');
    if eq < line.len() {
        let x = line.skip(eq + 1);
        lemma_trim_start_suffix(x);
        let k1 = choose|k: int| 0 <= k <= x.len() && trim_start(x) == x.skip(k);
        let y = trim_start(x);
        lemma_trim_end_first(y);
        let v = trim(x);
        if v.len() >= 2 && v[0] == '"' {
            assert(v[0] == y[0]);
            assert(y[0] == x[k1]);
            assert(x[k1] == line[eq + 1 + k1]);
            assert(line.contains('"'));
        }
    }
}

/// A text without line feeds is one line.
proof fn lemma_single_line(s: Seq<char>)
    requires
        s.len() > 0,
        !s.contains('\n'),
    ensures
        lines(s) == seq![s],
{
    lemma_find_from(s, 0, '\n');
    if find_from(s, 0, '\n') < s.len() {
        assert(s[find_from(s, 0, '\n')] == '\n');
    }
}

/// The restore rule that reads an escaped sign after `= ` back.
spec fn sign_restore_index(op: Seq<char>) -> int {
    if op == seq!['>', '='] {
        0
    } else if op == seq!['<', '='] {
        1
    } else if op == seq!['=', '='] {
        2
    } else if op == seq!['>'] {
        3
    } else {
        4
    }
}

/// Escaping a sign writes what the sign's restore rule looks for after `= `.
#[verifier::rlimit(40)]
#[verifier::spinoff_prover]
proof fn lemma_escape_of_sign(op: Seq<char>)
    requires
        is_sign_text(op),
    ensures
        0 <= sign_restore_index(op) < 5,
        seq!['=', ' '] + spec_escape(op) == restore_rules()[sign_restore_index(op)].0,
{
    reveal_with_fuel(match_rule, 9);
    let erules = escape_rules();
    let k_esc: int = if op == seq!['>', '='] {
        0
    } else if op == seq!['<', '='] {
        1
    } else if op == seq!['=', '='] {
        2
    } else if op == seq!['>'] {
        6
    } else {
        7
    };
    lemma_occurs_at_start(op, erules[k_esc].0);
    if k_esc >= 6 {
        lemma_not_occurs_at_start(op, erules[0].0, 1);
        lemma_not_occurs_at_start(op, erules[1].0, 1);
        lemma_not_occurs_at_start(op, erules[2].0, 1);
        lemma_not_occurs_at_start(op, erules[3].0, 0);
        lemma_not_occurs_at_start(op, erules[4].0, 0);
        lemma_not_occurs_at_start(op, erules[5].0, 0);
    }
    if k_esc == 1 || k_esc == 7 {
        lemma_not_occurs_at_start(op, erules[0].0, 0);
        lemma_not_occurs_at_start(op, erules[6].0, 0);
    }
    if k_esc == 2 {
        lemma_not_occurs_at_start(op, erules[0].0, 0);
        lemma_not_occurs_at_start(op, erules[1].0, 0);
    }
    assert(match_rule(op, 0, erules, 0) == Some(k_esc));
    lemma_rewrite_first(op, erules, k_esc);
    assert(op.skip(erules[k_esc].0.len() as int) =~= Seq::<char>::empty());
    assert(spec_escape(op) == erules[k_esc].1);
    assert(seq!['=', ' '] + erules[k_esc].1 =~= restore_rules()[sign_restore_index(op)].0);
}

/// After `= `, an escaped sign followed by plain text is matched by that sign's restore rule.
#[verifier::rlimit(40)]
#[verifier::spinoff_prover]
proof fn lemma_restore_rule_of_sign(op: Seq<char>, rest: Seq<char>)
    requires
        is_sign_text(op),
        forall|i: int|
            0 <= i < rest.len() ==> is_ascii_alnum(#[trigger] rest[i]) || rest[i] == '_' || rest[i]
                == '.' || rest[i] == ' ',
    ensures
        match_rule(seq!['=', ' '] + spec_escape(op) + rest, 0, restore_rules(), 0) == Some(
            sign_restore_index(op),
        ),
{
    reveal_with_fuel(match_rule, 6);
    lemma_escape_of_sign(op);
    let rules = restore_rules();
    let k = sign_restore_index(op);
    let pat = rules[k].0;
    let t = pat + rest;
    assert(t =~= seq!['=', ' '] + spec_escape(op) + rest);
    assert forall|i: int| 0 <= i < pat.len() implies t[i] == pat[i] by {}
    lemma_occurs_at_start(t, pat);
    if k >= 1 {
        lemma_not_occurs_at_start(t, rules[0].0, if k <= 2 { 3 } else { 5 });
    }
    if k >= 2 {
        lemma_not_occurs_at_start(t, rules[1].0, if k == 2 { 3 } else { 5 });
    }
    if k >= 3 {
        lemma_not_occurs_at_start(t, rules[2].0, 3);
    }
    if k == 4 {
        lemma_not_occurs_at_start(t, rules[3].0, 3);
    }
}

/// Restoring undoes the escaping of a comparison sign written after `key = `: the line
/// `key = ` followed by the escaped sign and the rest reads back as `key `, the sign itself
/// and the rest (`a = &gte; 1` as `a >= 1`), for every sign that escaping replaces.
#[verifier::rlimit(80)]
#[verifier::spinoff_prover]
pub proof fn lemma_restore_inverts_escaped_sign(key: Seq<char>, op: Seq<char>, rest: Seq<char>)
    requires
        key.len() > 0,
        forall|i: int| 0 <= i < key.len() ==> is_ascii_alnum(#[trigger] key[i]) || key[i] == '_',
        is_sign_text(op),
        forall|i: int|
            0 <= i < rest.len() ==> is_ascii_alnum(#[trigger] rest[i]) || rest[i] == '_' || rest[i]
                == '.' || rest[i] == ' ',
    ensures
        spec_restore(key + seq![' ', '=', ' '] + spec_escape(op) + rest) == key + seq![' '] + op
            + rest,
{
    let rules = restore_rules();
    lemma_escape_of_sign(op);
    lemma_restore_rule_of_sign(op, rest);
    let k = sign_restore_index(op);
    let e = spec_escape(op);
    let pat = rules[k].0;
    let t = seq!['=', ' '] + e + rest;
    lemma_rewrite_first(t, rules, k);
    assert(rules[k].1 == op);
    assert(t.skip(pat.len() as int) =~= rest);
    lemma_rewrite_identity(rest, rules);
    let a = key + seq![' '];
    lemma_rewrite_prefix_kept(a, t, rules);
    let line = key + seq![' ', '=', ' '] + e + rest;
    assert(line =~= a + t);
    let out = key + seq![' '] + op + rest;
    assert(rewrite(line, rules) =~= out);
    assert(line[key.len() as int + 3] == pat[2]);
    assert(has_restore_markers(line));
    assert(!line.contains('\n')) by {
        if line.contains('\n') {
            let i = choose|i: int| 0 <= i < line.len() && line[i] == '\n';
            if i >= key.len() + 3 + e.len() {
                assert(line[i] == rest[i - key.len() - 3 - e.len()]);
            } else if i >= key.len() + 1 {
                assert(line[i] == t[i - key.len() - 1]);
                assert(t[i - key.len() - 1] == pat[i - key.len() - 1]);
            }
        }
    }
    lemma_single_line(line);
    assert(!out.contains('"')) by {
        if out.contains('"') {
            let i = choose|i: int| 0 <= i < out.len() && out[i] == '"';
            if i >= key.len() + 1 + op.len() {
                assert(out[i] == rest[i - key.len() - 1 - op.len()]);
            }
        }
    }
    lemma_unquote_without_quotes(out);
    let mapped = lines(line).map_values(
        |l: Seq<char>| spec_unquote_macro_line(rewrite(l, restore_rules())),
    );
    assert(mapped =~= seq![out]);
}

/// A character of a text that escaping and restoring carry through: an ASCII letter or
/// digit, `_`, `.`, a space, or one of the symbols `>`, `<`, `:`, `[`, `]`.
pub open spec fn is_restorable_char(c: char) -> bool {
    is_ascii_alnum(c) || c == '_' || c == '.' || c == ' ' || c == '>' || c == '<' || c == ':'
        || c == '[' || c == ']'
}

/// What escaping writes for one such character.
spec fn escaped_char(c: char) -> Seq<char> {
    if c == '>' {
        seq!['&', 'g', 't', ';']
    } else if c == '<' {
        seq!['&', 'l', 't', ';']
    } else if c == ':' {
        seq!['-', '-']
    } else if c == '[' {
        seq!['%', '%']
    } else if c == ']' {
        seq!['!', '!']
    } else {
        seq![c]
    }
}

/// Escaping a text of such characters writes its first character's escape, then the rest.
#[verifier::rlimit(40)]
#[verifier::spinoff_prover]
proof fn lemma_escape_step(s: Seq<char>)
    requires
        s.len() > 0,
        forall|i: int| 0 <= i < s.len() ==> is_restorable_char(#[trigger] s[i]),
    ensures
        rewrite(s, escape_rules()) == escaped_char(s[0]) + rewrite(s.skip(1), escape_rules()),
{
    reveal_with_fuel(match_rule, 9);
    let e = escape_rules();
    let c = s[0];
    assert(is_restorable_char(c));
    if s.len() > 1 {
        assert(is_restorable_char(s[1]));
    }
    lemma_not_occurs_at_start(s, e[0].0, if c == '>' { 1 } else { 0 });
    lemma_not_occurs_at_start(s, e[1].0, if c == '<' { 1 } else { 0 });
    lemma_not_occurs_at_start(s, e[2].0, 0);
    if c == '>' || c == '<' || c == ':' || c == '[' || c == ']' {
        let k: int = if c == ':' { 3 } else if c == '[' { 4 } else if c == ']' { 5 } else if c == '>' { 6 } else { 7 };
        lemma_occurs_at_start(s, e[k].0);
        if k > 3 {
            lemma_not_occurs_at_start(s, e[3].0, 0);
        }
        if k > 4 {
            lemma_not_occurs_at_start(s, e[4].0, 0);
        }
        if k > 5 {
            lemma_not_occurs_at_start(s, e[5].0, 0);
        }
        if k > 6 {
            lemma_not_occurs_at_start(s, e[6].0, 0);
        }
        assert(match_rule(s, 0, e, 0) == Some(k));
        lemma_rewrite_first(s, e, k);
        assert(e[k].1 == escaped_char(c));
    } else {
        lemma_not_occurs_at_start(s, e[3].0, 0);
        lemma_not_occurs_at_start(s, e[4].0, 0);
        lemma_not_occurs_at_start(s, e[5].0, 0);
        lemma_not_occurs_at_start(s, e[6].0, 0);
        lemma_not_occurs_at_start(s, e[7].0, 0);
        assert(match_rule(s, 0, e, 0) is None);
        lemma_rewrite_keep(s, e);
    }
}

/// Restoring what escaping wrote for one character gives the character back.
#[verifier::rlimit(40)]
#[verifier::spinoff_prover]
proof fn lemma_restore_step(c: char, x: Seq<char>)
    requires
        is_restorable_char(c),
    ensures
        rewrite(escaped_char(c) + x, restore_rules()) == seq![c] + rewrite(x, restore_rules()),
{
    reveal_with_fuel(match_rule, 11);
    let r = restore_rules();
    let p = escaped_char(c);
    let t = p + x;
    if c == '>' || c == '<' || c == ':' || c == '[' || c == ']' {
        let k: int = if c == '>' { 5 } else if c == '<' { 6 } else if c == '[' { 7 } else if c == ']' { 8 } else { 9 };
        assert(r[k].0 =~= p);
        assert forall|i: int| 0 <= i < p.len() implies t[i] == p[i] by {}
        lemma_occurs_at_start(t, r[k].0);
        lemma_not_occurs_at_start(t, r[0].0, 0);
        lemma_not_occurs_at_start(t, r[1].0, 0);
        lemma_not_occurs_at_start(t, r[2].0, 0);
        lemma_not_occurs_at_start(t, r[3].0, 0);
        lemma_not_occurs_at_start(t, r[4].0, 0);
        if k > 5 {
            lemma_not_occurs_at_start(t, r[5].0, if c == '<' { 1 } else { 0 });
        }
        if k > 6 {
            lemma_not_occurs_at_start(t, r[6].0, 0);
        }
        if k > 7 {
            lemma_not_occurs_at_start(t, r[7].0, 0);
        }
        if k > 8 {
            lemma_not_occurs_at_start(t, r[8].0, 0);
        }
        assert(match_rule(t, 0, r, 0) == Some(k));
        lemma_rewrite_first(t, r, k);
        assert(t.skip(p.len() as int) =~= x);
        assert(r[k].1 == seq![c]);
    } else {
        assert(p == seq![c]);
        lemma_rewrite_prefix_kept(p, x, r);
    }
}

/// Restoring rewrites escaped text back into the text, and escaped text holds no line feed
/// and no quote.
proof fn lemma_restore_rewrites_escape(s: Seq<char>)
    requires
        forall|i: int| 0 <= i < s.len() ==> is_restorable_char(#[trigger] s[i]),
    ensures
        rewrite(rewrite(s, escape_rules()), restore_rules()) == s,
        !rewrite(s, escape_rules()).contains('\n'),
        !rewrite(s, escape_rules()).contains('"'),
    decreases s.len(),
{
    if s.len() > 0 {
        let rest = s.skip(1);
        assert forall|i: int| 0 <= i < rest.len() implies is_restorable_char(#[trigger] rest[i]) by {
            assert(rest[i] == s[i + 1]);
        }
        lemma_restore_rewrites_escape(rest);
        lemma_escape_step(s);
        let c = s[0];
        assert(is_restorable_char(c));
        let x = rewrite(rest, escape_rules());
        lemma_restore_step(c, x);
        assert(seq![c] + rest =~= s);
        let o = escaped_char(c) + x;
        assert forall|i: int| 0 <= i < o.len() implies o[i] != '\n' && o[i] != '"' by {
            if i >= escaped_char(c).len() {
                assert(o[i] == x[i - escaped_char(c).len()]);
                assert(!x.contains(o[i]) ==> o[i] != '\n');
            }
        }
    } else {
        assert(rewrite(s, escape_rules()) =~= Seq::<char>::empty());
    }
}

/// Restoring gives back what escaping wrote: for a one-line text of ASCII letters, digits,
/// `_`, `.`, spaces and the symbols `>`, `<`, `:`, `[` and `]`, restoring the escaped text
/// reads every escaped symbol back as the symbol it replaced.
#[verifier::spinoff_prover]
pub proof fn lemma_restore_inverts_escape(s: Seq<char>)
    requires
        forall|i: int| 0 <= i < s.len() ==> is_restorable_char(#[trigger] s[i]),
    ensures
        spec_restore(spec_escape(s)) == s,
{
    lemma_restore_rewrites_escape(s);
    let t = spec_escape(s);
    let r = restore_rules();
    if !has_restore_markers(t) {
        assert forall|i: int, k: int|
            0 <= k < r.len() && r[k].0.len() > 0 implies !#[trigger] occurs_at(t, i, r[k].0) by {
            let pat = r[k].0;
            if occurs_at(t, i, pat) {
                let j: int = if k <= 4 { 2 } else { 0 };
                assert(t.subrange(i, i + pat.len())[j] == t[i + j]);
                if k == 9 {
                    assert(contains_seq(t, seq!['-', '-']));
                }
            }
        }
        lemma_rewrite_unmatched(t, r);
    } else {
        assert(t.len() > 0);
        lemma_single_line(t);
        assert(!s.contains('"')) by {
            if s.contains('"') {
                let i = choose|i: int| 0 <= i < s.len() && s[i] == '"';
                assert(is_restorable_char(s[i]));
            }
        }
        lemma_unquote_without_quotes(s);
        let mapped = lines(t).map_values(
            |l: Seq<char>| spec_unquote_macro_line(rewrite(l, restore_rules())),
        );
        assert(mapped =~= seq![s]);
    }
}

pub fn strip_trailing_comma_chars(cs: &[char]) -> (r: Vec<char>)
    ensures
        r@ == spec_strip_trailing_comma(cs@),
{
    let n = cs.len();
    let mut out: Vec<char> = Vec::new();
    let mut all = n > 1 && cs[n - 1] == ',';
    let mut i: usize = 0;
    while i < n
        invariant
            i <= n == cs@.len(),
            out@ == cs@.take(i as int),
            all ==> n > 1 && cs@.last() == ',',
            all ==> forall|k: int| 0 <= k < i && k < n - 1 ==> #[trigger] is_token_char(cs@[k]),
            !all ==> !(n > 1 && cs@.last() == ',' && (forall|k: int|
                0 <= k < n - 1 ==> #[trigger] is_token_char(cs@[k]))),
        decreases n - i,
    {
        if all && i < n - 1 && !token_char(cs[i]) {
            all = false;
        }
        out.push(cs[i]);
        assert(cs@.take(i + 1) =~= cs@.take(i as int).push(cs@[i as int]));
        i += 1;
    }
    assert(cs@.take(n as int) =~= cs@);
    if all {
        out.pop();
        assert(out@ =~= cs@.drop_last());
    }
    out
}

/// Reads a scalar token the way the parser does (see `spec_normalize`).
pub fn normalize_chars(cs: &[char]) -> (r: Vec<char>)
    ensures
        r@ == spec_normalize(cs@),
{
    let rules = parse_marker_rules_exec();
    let decoded = rewrite_exec(cs, &rules);
    strip_trailing_comma_chars(decoded.as_slice())
}

/// Reads a raw scalar back: the markers `%%`, `!!`, `--`, `&gte;`, `&lte;`, `&eqeq;`,
/// `&gt;`, `&lt;` become `[`, `]`, `:`, `>=`, `<=`, `==`, `>`, `<`, and a trailing typo comma
/// after a single token is dropped.
pub fn normalize_scalar_for_parse(raw: &str) -> (r: String)
    ensures
        r@ == spec_normalize(raw@),
{
    let cs = chars_of(raw);
    let out = normalize_chars(cs.as_slice());
    string_of(out.as_slice())
}

/// Escapes a scalar for output (see `spec_escape`).
pub fn escape_chars(cs: &[char]) -> (r: Vec<char>)
    ensures
        r@ == spec_escape(cs@),
{
    let rules = escape_rules_exec();
    rewrite_exec(cs, &rules)
}

/// Escapes the symbols that the text format cannot hold in a bare scalar: `>=`, `<=`, `==`
/// become `&gte;`, `&lte;`, `&eqeq;`; `:`, `[`, `]`, `>`, `<` become `--`, `%%`, `!!`,
/// `&gt;`, `&lt;`.
pub fn escape_scalar_for_generate(raw: &str) -> (r: String)
    ensures
        r@ == spec_escape(raw@),
{
    escape_scalar_for_generate_cow(raw)
}

/// Escapes a scalar for output (see `escape_scalar_for_generate`).
pub fn escape_scalar_for_generate_cow(raw: &str) -> (r: String)
    ensures
        r@ == spec_escape(raw@),
{
    let cs = chars_of(raw);
    let out = escape_chars(cs.as_slice());
    string_of(out.as_slice())
}

/// Whether a rendered text holds anything that restoring may change.
pub open spec fn has_restore_markers(s: Seq<char>) -> bool {
    s.contains('&') || s.contains('%') || s.contains('!') || contains_seq(s, seq!['-', '-'])
        || s.contains('"')
}

/// A token that a quoted value may be unquoted to: non-empty, holding an underscore, and
/// made of ASCII letters, digits and underscores only.
pub open spec fn spec_is_macro_token(t: Seq<char>) -> bool {
    t.len() > 0 && t.contains('_') && forall|i: int|
        0 <= i < t.len() ==> is_ascii_alnum(#[trigger] t[i]) || t[i] == '_'
}

/// A line whose value after the first `=` is a quoted macro token loses the quotes:
/// `foo = "BLITZKRIEG_NAME"` becomes `foo = BLITZKRIEG_NAME`.
pub open spec fn spec_unquote_macro_line(line: Seq<char>) -> Seq<char> {
    let eq = find_from(line, 0, '=');
    if eq >= line.len() {
        line
    } else {
        let v = trim(line.skip(eq + 1));
        if v.len() >= 2 && v[0] == '"' && v.last() == '"' && spec_is_macro_token(
            v.subrange(1, v.len() - 1),
        ) {
            line.take(eq + 1) + seq![' '] + v.subrange(1, v.len() - 1)
        } else {
            line
        }
    }
}

/// Rendered text with the markers restored and quoted macro tokens unquoted, line by line;
/// text with nothing to restore is kept as it is.
pub open spec fn spec_restore(s: Seq<char>) -> Seq<char> {
    if !has_restore_markers(s) {
        s
    } else {
        join(
            lines(s).map_values(|l: Seq<char>| spec_unquote_macro_line(rewrite(l, restore_rules()))),
            seq!['\n'],
        )
    }
}

fn is_macro_token_chars(cs: &[char], from: usize, to: usize) -> (r: bool)
    requires
        from <= to <= cs@.len(),
    ensures
        r == spec_is_macro_token(cs@.subrange(from as int, to as int)),
{
    let ghost t = cs@.subrange(from as int, to as int);
    if from == to {
        return false;
    }
    let mut has_underscore = false;
    let mut i = from;
    while i < to
        invariant
            from <= i <= to <= cs@.len(),
            t == cs@.subrange(from as int, to as int),
            forall|k: int| 0 <= k < i - from ==> is_ascii_alnum(#[trigger] t[k]) || t[k] == '_',
            has_underscore == t.take(i - from).contains('_'),
        decreases to - i,
    {
        let c = cs[i];
        assert(t[i - from] == c);
        if !(ascii_alnum(c) || c == '_') {
            return false;
        }
        proof {
            let a = t.take(i - from);
            assert(t.take(i - from + 1) =~= a.push(c));
            if c == '_' {
                assert(a.push(c)[a.len() as int] == '_');
            } else {
                if a.push(c).contains('_') {
                    let k = choose|k: int| 0 <= k < a.push(c).len() && a.push(c)[k] == '_';
                    assert(a[k] == '_');
                }
                if a.contains('_') {
                    let k = choose|k: int| 0 <= k < a.len() && a[k] == '_';
                    assert(a.push(c)[k] == '_');
                }
            }
        }
        if c == '_' {
            has_underscore = true;
        }
        i += 1;
    }
    assert(t.take(to - from) =~= t);
    has_underscore
}

fn unquote_macro_line_chars(line: &[char]) -> (r: Vec<char>)
    ensures
        r@ == spec_unquote_macro_line(line@),
{
    let ghost l = line@;
    let eq = find_char_from(line, 0, '=');
    if eq >= line.len() {
        return vstd::slice::slice_to_vec(line);
    }
    let (a, b) = trim_bounds(line, eq + 1, line.len());
    proof {
        assert(l.subrange(eq + 1, l.len() as int) =~= l.skip(eq + 1));
    }
    if b - a >= 2 && line[a] == '"' && line[b - 1] == '"' && is_macro_token_chars(
        line,
        a + 1,
        b - 1,
    ) {
        let ghost v = l.subrange(a as int, b as int);
        let mut out: Vec<char> = Vec::new();
        let mut i: usize = 0;
        while i <= eq
            invariant
                i <= eq + 1,
                eq < line@.len(),
                out@ == line@.take(i as int),
            decreases eq + 1 - i,
        {
            out.push(line[i]);
            assert(line@.take(i + 1) =~= line@.take(i as int).push(line@[i as int]));
            i += 1;
        }
        out.push(' ');
        let mut k = a + 1;
        while k < b - 1
            invariant
                a + 1 <= k <= b - 1,
                b <= line@.len(),
                out@ == line@.take(eq + 1) + seq![' '] + line@.subrange(a + 1, k as int),
            decreases b - 1 - k,
        {
            out.push(line[k]);
            assert(line@.subrange(a + 1, k + 1) =~= line@.subrange(a + 1, k as int).push(
                line@[k as int],
            ));
            k += 1;
        }
        assert(v.subrange(1, v.len() - 1) =~= l.subrange(a + 1, b - 1));
        out
    } else {
        proof {
            let v = l.subrange(a as int, b as int);
            if v.len() >= 2 && v[0] == '"' && v.last() == '"' {
                assert(v.subrange(1, v.len() - 1) =~= l.subrange(a + 1, b - 1));
            }
        }
        vstd::slice::slice_to_vec(line)
    }
}

/// The lines joined with line feeds between them.
pub fn join_with_newline(parts: &Vec<Vec<char>>) -> (r: Vec<char>)
    ensures
        r@ == join(parts@.map_values(|l: Vec<char>| l@), seq!['\n']),
{
    let ghost views = parts@.map_values(|l: Vec<char>| l@);
    let mut out: Vec<char> = Vec::new();
    let mut idx: usize = 0;
    while idx < parts.len()
        invariant
            idx <= parts@.len(),
            views == parts@.map_values(|l: Vec<char>| l@),
            out@ == join(views.take(idx as int), seq!['\n']),
        decreases parts.len() - idx,
    {
        let ghost prev = out@;
        if idx > 0 {
            out.push('\n');
        }
        let ghost mid = out@;
        let part = &parts[idx];
        let mut k: usize = 0;
        while k < part.len()
            invariant
                k <= part.len(),
                out@ == mid + part@.take(k as int),
            decreases part.len() - k,
        {
            out.push(part[k]);
            assert(mid + part@.take(k + 1) =~= mid + part@.take(k as int) + seq![part@[k as int]]);
            k += 1;
        }
        proof {
            assert(part@.take(part.len() as int) =~= part@);
            assert(views[idx as int] == part@);
            let t = views.take(idx + 1);
            assert(t.drop_last() =~= views.take(idx as int));
            if idx == 0 {
                assert(t =~= seq![part@]);
                assert(out@ =~= join(t, seq!['\n']));
            } else {
                assert(out@ =~= join(t, seq!['\n']));
            }
        }
        idx += 1;
    }
    proof {
        assert(views.take(parts@.len() as int) =~= views);
    }
    out
}

fn restore_compat_markers_line(line: &[char]) -> (r: Vec<char>)
    ensures
        r@ == rewrite(line@, restore_rules()),
{
    let rules = restore_rules_exec();
    rewrite_exec(line, &rules)
}

/// Restores rendered output (see `spec_restore`): `&gt;`, `&lt;`, `%%`, `!!`, `--` become
/// `>`, `<`, `[`, `]`, `:`, an escaped operator right after `= ` replaces the `= `, and a
/// quoted macro token after `=` is unquoted.
pub fn restore_compat_operators(rendered: &str) -> (r: String)
    ensures
        r@ == spec_restore(rendered@),
{
    let cs = chars_of(rendered);
    if !(contains_char(cs.as_slice(), '&') || contains_char(cs.as_slice(), '%') || contains_char(
        cs.as_slice(),
        '!',
    ) || contains_exec(cs.as_slice(), &['-', '-']) || contains_char(cs.as_slice(), '"')) {
        return string_of(cs.as_slice());
    }
    let ls = split_lines(cs.as_slice());
    let mut mapped: Vec<Vec<char>> = Vec::new();
    let mut idx: usize = 0;
    while idx < ls.len()
        invariant
            idx <= ls@.len(),
            ls@.map_values(|l: Vec<char>| l@) == lines(cs@),
            mapped@.map_values(|l: Vec<char>| l@) == lines(cs@).take(idx as int).map_values(
                |l: Seq<char>| spec_unquote_macro_line(rewrite(l, restore_rules())),
            ),
        decreases ls.len() - idx,
    {
        assert(ls@.map_values(|l: Vec<char>| l@)[idx as int] == ls@[idx as int]@);
        let restored = restore_compat_markers_line(ls[idx].as_slice());
        let unquoted = unquote_macro_line_chars(restored.as_slice());
        let ghost prev = mapped@;
        mapped.push(unquoted);
        proof {
            assert(mapped@.map_values(|l: Vec<char>| l@) =~= prev.map_values(|l: Vec<char>| l@).push(
                unquoted@,
            ));
            assert(lines(cs@).take(idx + 1) =~= lines(cs@).take(idx as int).push(lines(cs@)[idx as int]));
            assert(lines(cs@).take(idx + 1).map_values(
                |l: Seq<char>| spec_unquote_macro_line(rewrite(l, restore_rules())),
            ) =~= lines(cs@).take(idx as int).map_values(
                |l: Seq<char>| spec_unquote_macro_line(rewrite(l, restore_rules())),
            ).push(unquoted@));
        }
        idx += 1;
    }
    proof {
        assert(lines(cs@).take(ls@.len() as int) =~= lines(cs@));
    }
    let out = join_with_newline(&mapped);
    string_of(out.as_slice())
}

} // verus!

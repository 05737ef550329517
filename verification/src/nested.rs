use vstd::prelude::*;

use crate::text::{
    chars_of, contains_exec, contains_seq, lemma_match_rule_ok, lemma_rewrite_first,
    lemma_rewrite_identity, lemma_rewrite_keep, match_rule, occurs_at, rewrite, rewrite_exec,
    rules_view, string_of,
};

verus! {

/// `\"` read back as `"`.
pub open spec fn unescape_quote_rules() -> Seq<(Seq<char>, Seq<char>)> {
    seq![(seq!['\\', '"'], seq!['"'])]
}

/// `"` written as `\"`.
pub open spec fn escape_quote_rules() -> Seq<(Seq<char>, Seq<char>)> {
    seq![(seq!['"'], seq!['\\', '"'])]
}

/// A line feed written as a space.
pub open spec fn newline_to_space_rules() -> Seq<(Seq<char>, Seq<char>)> {
    seq![(seq!['\n'], seq![' '])]
}

/// A quoted scalar that holds escaped quotes is a script: its inside, with `\"` read as `"`.
pub open spec fn spec_decode_nested(raw: Seq<char>) -> Option<Seq<char>> {
    if raw.len() >= 2 && raw[0] == '"' && raw.last() == '"' && contains_seq(raw, seq!['\\', '"']) {
        Some(rewrite(raw.subrange(1, raw.len() - 1), unescape_quote_rules()))
    } else {
        None
    }
}

/// A script written as a quoted scalar: quotes escaped, line feeds made spaces, and the
/// whole put between quotes.
pub open spec fn spec_encode_nested(raw: Seq<char>) -> Seq<char> {
    seq!['"'] + rewrite(rewrite(raw, escape_quote_rules()), newline_to_space_rules()) + seq!['"']
}

fn rules1(from: &[char], to: &[char]) -> (r: Vec<(Vec<char>, Vec<char>)>)
    ensures
        rules_view(r@) == seq![(from@, to@)],
{
    let r = vec![(vstd::slice::slice_to_vec(from), vstd::slice::slice_to_vec(to))];
    assert(rules_view(r@) =~= seq![(from@, to@)]);
    r
}

/// Decodes characters holding a quoted script (see `spec_decode_nested`).
pub fn decode_nested_chars(raw: &[char]) -> (r: Option<Vec<char>>)
    ensures
        match r {
            Some(d) => spec_decode_nested(raw@) == Some(d@),
            None => spec_decode_nested(raw@) is None,
        },
{
    let n = raw.len();
    if n < 2 || raw[0] != '"' || raw[n - 1] != '"' || !contains_exec(raw, &['\\', '"']) {
        return None;
    }
    let mut inner: Vec<char> = Vec::new();
    let mut i: usize = 1;
    while i < n - 1
        invariant
            1 <= i <= n - 1,
            n == raw@.len(),
            inner@ == raw@.subrange(1, i as int),
        decreases n - 1 - i,
    {
        inner.push(raw[i]);
        assert(raw@.subrange(1, i + 1) =~= raw@.subrange(1, i as int).push(raw@[i as int]));
        i += 1;
    }
    let rules = rules1(&['\\', '"'], &['"']);
    assert(rules_view(rules@) =~~= unescape_quote_rules());
    Some(rewrite_exec(inner.as_slice(), &rules))
}

/// The script held in a quoted scalar, when the scalar is quoted and holds escaped quotes.
pub fn decode_nested_quoted(raw: &str) -> (r: Option<String>)
    ensures
        match r {
            Some(d) => spec_decode_nested(raw@) == Some(d@),
            None => spec_decode_nested(raw@) is None,
        },
{
    let cs = chars_of(raw);
    match decode_nested_chars(cs.as_slice()) {
        Some(d) => Some(string_of(d.as_slice())),
        None => None,
    }
}

/// Encodes characters of a script as a quoted scalar (see `spec_encode_nested`).
pub fn encode_nested_chars(raw: &[char]) -> (r: Vec<char>)
    ensures
        r@ == spec_encode_nested(raw@),
{
    let q = rules1(&['"'], &['\\', '"']);
    assert(rules_view(q@) =~~= escape_quote_rules());
    let escaped = rewrite_exec(raw, &q);
    let nl = rules1(&['\n'], &[' ']);
    assert(rules_view(nl@) =~~= newline_to_space_rules());
    let flat = rewrite_exec(escaped.as_slice(), &nl);
    let mut out: Vec<char> = Vec::new();
    out.push('"');
    let mut i: usize = 0;
    while i < flat.len()
        invariant
            i <= flat.len(),
            out@ == seq!['"'] + flat@.take(i as int),
        decreases flat.len() - i,
    {
        out.push(flat[i]);
        assert(flat@.take(i + 1) =~= flat@.take(i as int).push(flat@[i as int]));
        i += 1;
    }
    out.push('"');
    assert(flat@.take(flat.len() as int) =~= flat@);
    assert(out@ =~= seq!['"'] + flat@ + seq!['"']);
    out
}

/// A script written as a quoted scalar (see `spec_encode_nested`).
pub fn encode_nested_quoted(raw: &str) -> (r: String)
    ensures
        r@ == spec_encode_nested(raw@),
{
    let cs = chars_of(raw);
    let out = encode_nested_chars(cs.as_slice());
    string_of(out.as_slice())
}


/// Escaping the quotes of a text: unescaping gives the text back, the result never starts
/// with a quote, adds no line feed, and holds an escaped quote when the text holds a quote.
proof fn lemma_escape_quotes(s: Seq<char>)
    ensures
        rewrite(rewrite(s, escape_quote_rules()), unescape_quote_rules()) == s,
        rewrite(s, escape_quote_rules()).len() > 0 ==> rewrite(s, escape_quote_rules())[0] != '"',
        !s.contains('\n') ==> !rewrite(s, escape_quote_rules()).contains('\n'),
        s.contains('"') ==> contains_seq(rewrite(s, escape_quote_rules()), seq!['\\', '"']),
    decreases s.len(),
{
    reveal_with_fuel(match_rule, 2);
    let q = escape_quote_rules();
    let u = unescape_quote_rules();
    let y = rewrite(s, q);
    if s.len() == 0 {
        assert(y =~= Seq::<char>::empty());
        assert(rewrite(y, u) =~= s);
    } else {
        let t = s.skip(1);
        let yt = rewrite(t, q);
        lemma_escape_quotes(t);
        lemma_match_rule_ok(s, 0, q, 0);
        if s[0] == '"' {
            assert(s.subrange(0, 1) =~= seq!['"']);
            assert(match_rule(s, 0, q, 0) == Some(0int));
            lemma_rewrite_first(s, q, 0);
            assert(y == seq!['\\', '"'] + yt);
            let x = seq!['\\', '"'] + yt;
            assert(x.subrange(0, 2) =~= seq!['\\', '"']);
            assert(match_rule(x, 0, u, 0) == Some(0int));
            lemma_rewrite_first(x, u, 0);
            assert(x.skip(2) =~= yt);
            assert(seq!['"'] + t =~= s);
            assert(occurs_at(y, 0, seq!['\\', '"']));
            assert forall|i: int| 0 <= i < y.len() implies y[i] != '\n' || s.contains('\n') by {
                if i >= 2 && !s.contains('\n') {
                    assert(y[i] == yt[i - 2]);
                    if yt[i - 2] == '\n' {
                        assert(yt.contains('\n'));
                        assert(!t.contains('\n')) by {
                            if t.contains('\n') {
                                let j = choose|j: int| 0 <= j < t.len() && t[j] == '\n';
                                assert(s[j + 1] == '\n');
                            }
                        }
                    }
                }
            }
        } else {
            assert(s.subrange(0, 1)[0] == s[0]);
            assert(match_rule(s, 0, q, 0) is None);
            lemma_rewrite_keep(s, q);
            assert(y == seq![s[0]] + yt);
            let x = seq![s[0]] + yt;
            if occurs_at(x, 0, seq!['\\', '"']) {
                assert(x.subrange(0, 2)[1] == yt[0]);
                assert(seq!['\\', '"'][1] == '"');
            }
            assert(match_rule(x, 0, u, 0) is None);
            lemma_rewrite_keep(x, u);
            assert(x.skip(1) =~= yt);
            assert(seq![s[0]] + t =~= s);
            if !s.contains('\n') {
                assert(!t.contains('\n')) by {
                    if t.contains('\n') {
                        let j = choose|j: int| 0 <= j < t.len() && t[j] == '\n';
                        assert(s[j + 1] == '\n');
                    }
                }
                assert forall|i: int| 0 <= i < y.len() implies y[i] != '\n' by {
                    if i == 0 {
                        assert(s[0] != '\n');
                    } else {
                        assert(y[i] == yt[i - 1]);
                    }
                }
            }
            if s.contains('"') {
                let j = choose|j: int| 0 <= j < s.len() && s[j] == '"';
                assert(j > 0);
                assert(t[j - 1] == '"');
                assert(t.contains('"'));
                let w = choose|w: int| occurs_at(yt, w, seq!['\\', '"']);
                assert(y.subrange(w + 1, w + 3) =~= yt.subrange(w, w + 2));
                assert(occurs_at(y, w + 1, seq!['\\', '"']));
            }
        }
    }
}

/// A script with no line feed that holds a quote is read back from its quoted form
/// (`encode_nested_quoted` then `decode_nested_quoted` gives it back).
pub proof fn lemma_decode_encode_nested(s: Seq<char>)
    requires
        !s.contains('\n'),
        s.contains('"'),
    ensures
        spec_decode_nested(spec_encode_nested(s)) == Some(s),
{
    let y = rewrite(s, escape_quote_rules());
    lemma_escape_quotes(s);
    assert forall|i: int, k: int|
        0 <= i < y.len() && 0 <= k < newline_to_space_rules().len()
            && newline_to_space_rules()[k].0.len() > 0 implies newline_to_space_rules()[k].0[0]
        != #[trigger] y[i] || #[trigger] newline_to_space_rules()[k].0.len() == 0 by {
        assert(newline_to_space_rules()[k].0[0] == '\n');
        if y[i] == '\n' {
            assert(y.contains('\n'));
        }
    }
    lemma_rewrite_identity(y, newline_to_space_rules());
    let raw = seq!['"'] + y + seq!['"'];
    assert(spec_encode_nested(s) == raw);
    assert(raw.subrange(1, raw.len() - 1) =~= y);
    let w = choose|w: int| occurs_at(y, w, seq!['\\', '"']);
    assert(raw.subrange(w + 1, w + 3) =~= y.subrange(w, w + 2));
    assert(occurs_at(raw, w + 1, seq!['\\', '"']));
}

} // verus!

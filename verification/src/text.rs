use vstd::prelude::*;

verus! {

/// Appends one character to a `String` (std's `String::push`).
#[verifier::external_body]
pub(crate) fn push_char(s: &mut String, c: char)
    ensures
        final(s)@ == old(s)@.push(c),
{
    s.push(c);
}

/// std's `Debug` form of a string (quoted, with escapes); its result is named `debug_text`.
pub uninterp spec fn debug_text(s: Seq<char>) -> Seq<char>;

/// std's `Debug` formatting of a `&str` (`format!("{:?}", s)`).
#[verifier::external_body]
pub(crate) fn debug_str(s: &[char]) -> (r: String)
    ensures
        r@ == debug_text(s@),
{
    let text: String = s.iter().collect();
    format!("{:?}", text)
}

/// Whether `char::is_alphanumeric` holds of a character (Unicode Alphabetic or Numeric).
pub uninterp spec fn unicode_alphanumeric(c: char) -> bool;

/// std's `char::is_alphanumeric`; its result is named `unicode_alphanumeric`.  An ASCII
/// character is alphanumeric exactly when it is an ASCII letter or digit (no other ASCII
/// character is Alphabetic or Numeric).
#[verifier::external_body]
pub(crate) fn char_is_alphanumeric(c: char) -> (r: bool)
    ensures
        r == unicode_alphanumeric(c),
        (c as u32) < 128 ==> (r <==> is_ascii_alnum(c)),
{
    c.is_alphanumeric()
}

/// Whether `char::is_whitespace` holds of a character: the Unicode White_Space characters,
/// tab to carriage return, space, next line, no-break space, ogham space mark, the spaces
/// from en quad to hair space, line and paragraph separators, narrow no-break space, medium
/// mathematical space and ideographic space.
pub open spec fn unicode_whitespace(c: char) -> bool {
    let u = c as u32;
    (0x09 <= u && u <= 0x0d) || u == 0x20 || u == 0x85 || u == 0xa0 || u == 0x1680 || (0x2000
        <= u && u <= 0x200a) || u == 0x2028 || u == 0x2029 || u == 0x202f || u == 0x205f || u
        == 0x3000
}

/// std's `char::is_whitespace` (see `unicode_whitespace`).
pub(crate) fn char_is_whitespace(c: char) -> (r: bool)
    ensures
        r == unicode_whitespace(c),
{
    let u = c as u32;
    (0x09 <= u && u <= 0x0d) || u == 0x20 || u == 0x85 || u == 0xa0 || u == 0x1680 || (0x2000
        <= u && u <= 0x200a) || u == 0x2028 || u == 0x2029 || u == 0x202f || u == 0x205f || u
        == 0x3000
}

pub open spec fn is_ascii_digit(c: char) -> bool {
    '0' <= c && c <= '9'
}

pub open spec fn is_ascii_alnum(c: char) -> bool {
    ('0' <= c && c <= '9') || ('a' <= c && c <= 'z') || ('A' <= c && c <= 'Z')
}

pub fn ascii_digit(c: char) -> (r: bool)
    ensures
        r == is_ascii_digit(c),
{
    '0' <= c && c <= '9'
}

pub fn ascii_alnum(c: char) -> (r: bool)
    ensures
        r == is_ascii_alnum(c),
{
    ('0' <= c && c <= '9') || ('a' <= c && c <= 'z') || ('A' <= c && c <= 'Z')
}

/// The characters of a string slice, in order.
pub fn chars_of(s: &str) -> (out: Vec<char>)
    ensures
        out@ == s@,
{
    let mut out: Vec<char> = Vec::new();
    for c in it: s.chars()
        invariant
            out@ == it.seq().take(it.index() as int),
    {
        out.push(c);
    }
    out
}

/// Builds a `String` holding the characters `cs[from..to]`.
pub fn string_of_range(cs: &[char], from: usize, to: usize) -> (out: String)
    requires
        from <= to <= cs@.len(),
    ensures
        out@ == cs@.subrange(from as int, to as int),
{
    let mut out = String::new();
    let mut i: usize = from;
    while i < to
        invariant
            from <= i <= to <= cs@.len(),
            out@ == cs@.subrange(from as int, i as int),
        decreases to - i,
    {
        push_char(&mut out, cs[i]);
        assert(cs@.subrange(from as int, i as int).push(cs@[i as int]) =~= cs@.subrange(
            from as int,
            i + 1,
        ));
        i += 1;
    }
    out
}

/// Builds a `String` holding the given characters.
pub fn string_of(cs: &[char]) -> (out: String)
    ensures
        out@ == cs@,
{
    let out = string_of_range(cs, 0, cs.len());
    assert(cs@.subrange(0, cs@.len() as int) =~= cs@);
    out
}

/// Appends the characters `cs` to `out`.
pub fn push_chars(out: &mut String, cs: &[char])
    ensures
        final(out)@ == old(out)@ + cs@,
{
    let mut i: usize = 0;
    while i < cs.len()
        invariant
            i <= cs.len(),
            out@ == old(out)@ + cs@.take(i as int),
        decreases cs.len() - i,
    {
        push_char(out, cs[i]);
        assert(old(out)@ + cs@.take(i + 1) =~= old(out)@ + cs@.take(i as int) + seq![cs@[i as int]]);
        i += 1;
    }
    assert(cs@.take(cs.len() as int) =~= cs@);
}

/// `pat` occurs in `s` starting at index `i`.
pub open spec fn occurs_at(s: Seq<char>, i: int, pat: Seq<char>) -> bool {
    0 <= i && i + pat.len() <= s.len() && s.subrange(i, i + pat.len()) == pat
}

pub open spec fn contains_seq(s: Seq<char>, pat: Seq<char>) -> bool {
    exists|i: int| occurs_at(s, i, pat)
}

pub open spec fn starts_with(s: Seq<char>, pat: Seq<char>) -> bool {
    occurs_at(s, 0, pat)
}

pub open spec fn ends_with(s: Seq<char>, pat: Seq<char>) -> bool {
    pat.len() <= s.len() && occurs_at(s, s.len() - pat.len(), pat)
}

/// Whether `pat` occurs in `cs` at index `i`.
pub fn occurs_at_exec(cs: &[char], i: usize, pat: &[char]) -> (r: bool)
    ensures
        r == occurs_at(cs@, i as int, pat@),
{
    if i > cs.len() || pat.len() > cs.len() - i {
        return false;
    }
    let mut k: usize = 0;
    while k < pat.len()
        invariant
            k <= pat.len(),
            i + pat.len() <= cs.len(),
            forall|m: int| 0 <= m < k ==> cs@[i + m] == pat@[m],
        decreases pat.len() - k,
    {
        if cs[i + k] != pat[k] {
            assert(cs@.subrange(i as int, i + pat@.len())[k as int] != pat@[k as int]);
            return false;
        }
        k += 1;
    }
    assert(cs@.subrange(i as int, i + pat@.len()) =~= pat@);
    true
}

/// Whether `pat` occurs anywhere in `cs`.
pub fn contains_exec(cs: &[char], pat: &[char]) -> (r: bool)
    ensures
        r == contains_seq(cs@, pat@),
{
    if pat.len() == 0 {
        assert(occurs_at(cs@, 0, pat@)) by {
            assert(cs@.subrange(0, 0) =~= pat@);
        }
        return true;
    }
    let mut i: usize = 0;
    while i < cs.len()
        invariant
            i <= cs.len(),
            forall|j: int| 0 <= j < i ==> !occurs_at(cs@, j, pat@),
        decreases cs.len() - i,
    {
        if occurs_at_exec(cs, i, pat) {
            return true;
        }
        i += 1;
    }
    false
}

/// Whether the character `c` occurs in `cs`.
pub fn contains_char(cs: &[char], c: char) -> (r: bool)
    ensures
        r == cs@.contains(c),
{
    let mut i: usize = 0;
    while i < cs.len()
        invariant
            i <= cs.len(),
            forall|j: int| 0 <= j < i ==> cs@[j] != c,
        decreases cs.len() - i,
    {
        if cs[i] == c {
            return true;
        }
        i += 1;
    }
    false
}

} // verus!

verus! {

/// A list of rewrite rules: each pattern with its replacement, in priority order.
pub open spec fn rules_view(rules: Seq<(Vec<char>, Vec<char>)>) -> Seq<(Seq<char>, Seq<char>)> {
    rules.map_values(|r: (Vec<char>, Vec<char>)| (r.0@, r.1@))
}

/// The first rule, from index `k` on, whose non-empty pattern occurs in `s` at `i`.
pub open spec fn match_rule(s: Seq<char>, i: int, rules: Seq<(Seq<char>, Seq<char>)>, k: int) -> Option<
    int,
>
    decreases rules.len() - k,
{
    if k < 0 || k >= rules.len() {
        None
    } else if rules[k].0.len() > 0 && occurs_at(s, i, rules[k].0) {
        Some(k)
    } else {
        match_rule(s, i, rules, k + 1)
    }
}

/// `s[i..]` rewritten left to right: where the pattern of a rule occurs (the first such rule
/// in the list), its replacement is emitted and the pattern skipped; elsewhere the character
/// is kept.
pub open spec fn rewrite_from(s: Seq<char>, i: int, rules: Seq<(Seq<char>, Seq<char>)>) -> Seq<char>
    decreases s.len() - i,
{
    if i < 0 || i >= s.len() {
        Seq::empty()
    } else {
        match match_rule(s, i, rules, 0) {
            Some(k) => if 0 <= k < rules.len() && 0 < rules[k].0.len() && i + rules[k].0.len() <= s.len() {
                rules[k].1 + rewrite_from(s, i + rules[k].0.len(), rules)
            } else {
                Seq::empty()
            },
            None => seq![s[i]] + rewrite_from(s, i + 1, rules),
        }
    }
}

pub open spec fn rewrite(s: Seq<char>, rules: Seq<(Seq<char>, Seq<char>)>) -> Seq<char> {
    rewrite_from(s, 0, rules)
}

pub proof fn lemma_match_rule_ok(s: Seq<char>, i: int, rules: Seq<(Seq<char>, Seq<char>)>, k: int)
    requires
        0 <= k,
    ensures
        match_rule(s, i, rules, k) matches Some(m) ==> k <= m < rules.len() && rules[m].0.len()
            > 0 && occurs_at(s, i, rules[m].0),
        match_rule(s, i, rules, k) is None ==> forall|m: int|
            k <= m < rules.len() ==> !(rules[m].0.len() > 0 && #[trigger] occurs_at(
                s,
                i,
                rules[m].0,
            )),
    decreases rules.len() - k,
{
    if k < rules.len() {
        lemma_match_rule_ok(s, i, rules, k + 1);
    }
}

fn match_rule_exec(cs: &[char], i: usize, rules: &Vec<(Vec<char>, Vec<char>)>) -> (r: Option<usize>)
    ensures
        r matches Some(k) ==> match_rule(cs@, i as int, rules_view(rules@), 0) == Some(k as int),
        r is None ==> match_rule(cs@, i as int, rules_view(rules@), 0) is None,
{
    let ghost rv = rules_view(rules@);
    let mut k: usize = 0;
    while k < rules.len()
        invariant
            k <= rules.len(),
            rv == rules_view(rules@),
            match_rule(cs@, i as int, rv, 0) == match_rule(cs@, i as int, rv, k as int),
        decreases rules.len() - k,
    {
        let pat = &rules[k].0;
        assert(rv[k as int].0 == pat@);
        if pat.len() > 0 && occurs_at_exec(cs, i, pat.as_slice()) {
            return Some(k);
        }
        k += 1;
    }
    None
}

/// Rewrites `cs` by the rules (see `rewrite`).
pub fn rewrite_exec(cs: &[char], rules: &Vec<(Vec<char>, Vec<char>)>) -> (out: Vec<char>)
    ensures
        out@ == rewrite(cs@, rules_view(rules@)),
{
    let ghost rv = rules_view(rules@);
    let ghost s = cs@;
    let mut out: Vec<char> = Vec::new();
    let mut i: usize = 0;
    while i < cs.len()
        invariant
            i <= cs.len(),
            s == cs@,
            rv == rules_view(rules@),
            rewrite(s, rv) == out@ + rewrite_from(s, i as int, rv),
        decreases cs.len() - i,
    {
        proof {
            lemma_match_rule_ok(s, i as int, rv, 0);
        }
        match match_rule_exec(cs, i, rules) {
            Some(k) => {
                let rep = &rules[k].1;
                let plen = rules[k].0.len();
                assert(rv[k as int].1 == rep@ && rv[k as int].0.len() == plen);
                let ghost prev = out@;
                let mut m: usize = 0;
                while m < rep.len()
                    invariant
                        m <= rep.len(),
                        out@ == prev + rep@.take(m as int),
                    decreases rep.len() - m,
                {
                    out.push(rep[m]);
                    assert(prev + rep@.take(m + 1) =~= prev + rep@.take(m as int) + seq![
                        rep@[m as int],
                    ]);
                    m += 1;
                }
                assert(rep@.take(rep.len() as int) =~= rep@);
                assert(prev + rewrite_from(s, i as int, rv) =~= out@ + rewrite_from(
                    s,
                    i + plen,
                    rv,
                ));
                i = i + plen;
            },
            None => {
                let ghost prev = out@;
                out.push(cs[i]);
                assert(prev + rewrite_from(s, i as int, rv) =~= out@ + rewrite_from(
                    s,
                    i + 1,
                    rv,
                ));
                i += 1;
            },
        }
    }
    assert(out@ + rewrite_from(s, i as int, rv) =~= out@);
    out
}

} // verus!

verus! {

/// `s` without its leading Unicode whitespace.
pub open spec fn trim_start(s: Seq<char>) -> Seq<char>
    decreases s.len(),
{
    if s.len() > 0 && unicode_whitespace(s[0]) {
        trim_start(s.skip(1))
    } else {
        s
    }
}

/// `s` without its trailing Unicode whitespace.
pub open spec fn trim_end(s: Seq<char>) -> Seq<char>
    decreases s.len(),
{
    if s.len() > 0 && unicode_whitespace(s.last()) {
        trim_end(s.drop_last())
    } else {
        s
    }
}

/// `s` without leading and trailing Unicode whitespace (std's `str::trim`).
pub open spec fn trim(s: Seq<char>) -> Seq<char> {
    trim_end(trim_start(s))
}

pub proof fn lemma_trim_start_suffix(s: Seq<char>)
    ensures
        exists|k: int| 0 <= k <= s.len() && trim_start(s) == s.skip(k),
        trim_start(s).len() <= s.len(),
    decreases s.len(),
{
    if s.len() > 0 && unicode_whitespace(s[0]) {
        lemma_trim_start_suffix(s.skip(1));
        let k = choose|k: int| 0 <= k <= s.skip(1).len() && trim_start(s.skip(1)) == s.skip(1).skip(k);
        assert(s.skip(1).skip(k) =~= s.skip(k + 1));
    } else {
        assert(s.skip(0) =~= s);
    }
}

/// `cs[from..to]` without leading and trailing Unicode whitespace, as bounds into `cs`.
pub fn trim_bounds(cs: &[char], from: usize, to: usize) -> (r: (usize, usize))
    requires
        from <= to <= cs@.len(),
    ensures
        from <= r.0 <= r.1 <= to,
        cs@.subrange(r.0 as int, r.1 as int) == trim(cs@.subrange(from as int, to as int)),
        cs@.subrange(r.0 as int, to as int) == trim_start(cs@.subrange(from as int, to as int)),
        cs@.subrange(r.0 as int, r.1 as int) == trim_end(cs@.subrange(r.0 as int, to as int)),
{
    let ghost s = cs@.subrange(from as int, to as int);
    let mut a = from;
    while a < to && char_is_whitespace(cs[a])
        invariant
            from <= a <= to <= cs@.len(),
            trim_start(s) == trim_start(cs@.subrange(a as int, to as int)),
        decreases to - a,
    {
        assert(cs@.subrange(a as int, to as int).skip(1) =~= cs@.subrange(a + 1, to as int));
        a += 1;
    }
    assert(trim_start(cs@.subrange(a as int, to as int)) == cs@.subrange(a as int, to as int));
    let mut b = to;
    while b > a && char_is_whitespace(cs[b - 1])
        invariant
            from <= a <= b <= to <= cs@.len(),
            trim(s) == trim_end(cs@.subrange(a as int, b as int)),
            trim_end(cs@.subrange(a as int, to as int)) == trim_end(cs@.subrange(a as int, b as int)),
        decreases b - a,
    {
        assert(cs@.subrange(a as int, b as int).drop_last() =~= cs@.subrange(a as int, b - 1));
        b -= 1;
    }
    assert(trim_end(cs@.subrange(a as int, b as int)) == cs@.subrange(a as int, b as int));
    (a, b)
}

/// Two characters start `s` exactly when its first two characters are they.
pub proof fn lemma_starts_with2(s: Seq<char>, x: char, y: char)
    ensures
        starts_with(s, seq![x, y]) <==> (s.len() >= 2 && s[0] == x && s[1] == y),
{
    if s.len() >= 2 {
        let p = s.subrange(0, 2);
        assert(p[0] == s[0] && p[1] == s[1]);
        assert(seq![x, y][0] == x && seq![x, y][1] == y);
        if s[0] == x && s[1] == y {
            assert(p =~= seq![x, y]);
        }
    }
}

/// Two characters end `s` exactly when its last two characters are they.
pub proof fn lemma_ends_with2(s: Seq<char>, x: char, y: char)
    ensures
        ends_with(s, seq![x, y]) <==> (s.len() >= 2 && s[s.len() - 2] == x && s[s.len() - 1] == y),
{
    if s.len() >= 2 {
        let p = s.subrange(s.len() - 2, s.len() as int);
        assert(p[0] == s[s.len() - 2] && p[1] == s[s.len() - 1]);
        assert(seq![x, y][0] == x && seq![x, y][1] == y);
        if s[s.len() - 2] == x && s[s.len() - 1] == y {
            assert(p =~= seq![x, y]);
        }
    }
}

/// One character ends `s` exactly when it is the last.
pub proof fn lemma_ends_with1(s: Seq<char>, x: char)
    ensures
        ends_with(s, seq![x]) <==> (s.len() >= 1 && s[s.len() - 1] == x),
{
    if s.len() >= 1 {
        let p = s.subrange(s.len() - 1, s.len() as int);
        assert(p[0] == s[s.len() - 1]);
        assert(seq![x][0] == x);
        if s[s.len() - 1] == x {
            assert(p =~= seq![x]);
        }
    }
}

/// `s` without trailing whitespace is its prefix of the returned length.
pub fn trim_end_len(cs: &[char]) -> (r: usize)
    ensures
        r <= cs@.len(),
        cs@.subrange(0, r as int) == trim_end(cs@),
{
    let mut b = cs.len();
    assert(cs@.subrange(0, b as int) =~= cs@);
    while b > 0 && char_is_whitespace(cs[b - 1])
        invariant
            b <= cs@.len(),
            trim_end(cs@) == trim_end(cs@.subrange(0, b as int)),
        decreases b,
    {
        assert(cs@.subrange(0, b as int).drop_last() =~= cs@.subrange(0, b - 1));
        b -= 1;
    }
    b
}

/// One character starts `s` exactly when it is the first.
pub proof fn lemma_starts_with1(s: Seq<char>, x: char)
    ensures
        starts_with(s, seq![x]) <==> (s.len() >= 1 && s[0] == x),
{
    if s.len() >= 1 {
        let p = s.subrange(0, 1);
        assert(p[0] == s[0]);
        assert(seq![x][0] == x);
        if s[0] == x {
            assert(p =~= seq![x]);
        }
    }
}

/// The index of the first occurrence of `c` in `s` at or after `i`, or the length of `s`.
pub open spec fn find_from(s: Seq<char>, i: int, c: char) -> int
    decreases s.len() - i,
{
    if i < 0 || i >= s.len() || s[i] == c {
        i
    } else {
        find_from(s, i + 1, c)
    }
}

pub proof fn lemma_find_from(s: Seq<char>, i: int, c: char)
    requires
        0 <= i <= s.len(),
    ensures
        i <= find_from(s, i, c) <= s.len(),
        find_from(s, i, c) < s.len() ==> s[find_from(s, i, c)] == c,
        forall|k: int| i <= k < find_from(s, i, c) ==> s[k] != c,
    decreases s.len() - i,
{
    if i < s.len() && s[i] != c {
        lemma_find_from(s, i + 1, c);
    }
}

/// The index of the first occurrence of `c` in `cs` at or after `i`, or `cs.len()`.
pub fn find_char_from(cs: &[char], i: usize, c: char) -> (r: usize)
    requires
        i <= cs@.len(),
    ensures
        r as int == find_from(cs@, i as int, c),
        i <= r <= cs@.len(),
{
    let mut j = i;
    while j < cs.len() && cs[j] != c
        invariant
            i <= j <= cs@.len(),
            find_from(cs@, i as int, c) == find_from(cs@, j as int, c),
        decreases cs.len() - j,
    {
        j += 1;
    }
    j
}

/// `l` without one trailing carriage return.
pub open spec fn strip_cr(l: Seq<char>) -> Seq<char> {
    if l.len() > 0 && l.last() == '\r' {
        l.drop_last()
    } else {
        l
    }
}

/// The lines of `s` (std's `str::lines`): split at each line feed, with a carriage return
/// just before a line feed dropped; a final line ending adds no empty line.
pub open spec fn lines(s: Seq<char>) -> Seq<Seq<char>>
    decreases s.len(),
{
    if s.len() == 0 {
        Seq::empty()
    } else {
        let j = find_from(s, 0, '\n');
        if 0 <= j < s.len() {
            seq![strip_cr(s.take(j))] + lines(s.skip(j + 1))
        } else {
            seq![s]
        }
    }
}

/// The lines of `cs` (see `lines`).
pub fn split_lines(cs: &[char]) -> (r: Vec<Vec<char>>)
    ensures
        r@.map_values(|l: Vec<char>| l@) == lines(cs@),
{
    let ghost s = cs@;
    let mut out: Vec<Vec<char>> = Vec::new();
    let mut i: usize = 0;
    assert(s.skip(0) =~= s);
    assert(out@.map_values(|l: Vec<char>| l@) + lines(s) =~= lines(s));
    while i < cs.len()
        invariant
            i <= cs.len(),
            s == cs@,
            lines(s) == out@.map_values(|l: Vec<char>| l@) + lines(s.skip(i as int)),
        decreases cs.len() - i,
    {
        let j = find_char_from(cs, i, '\n');
        proof {
            lemma_find_from(s, i as int, '\n');
            lemma_find_shift(s, i as int, '\n');
        }
        let ghost rest = s.skip(i as int);
        let ghost prev = out@;
        let mut line: Vec<char> = Vec::new();
        let mut k = i;
        while k < j
            invariant
                i <= k <= j <= cs@.len(),
                s == cs@,
                line@ == s.subrange(i as int, k as int),
            decreases j - k,
        {
            line.push(cs[k]);
            assert(s.subrange(i as int, k + 1) =~= s.subrange(i as int, k as int).push(s[k as int]));
            k += 1;
        }
        if j < cs.len() {
            if line.len() > 0 && line[line.len() - 1] == '\r' {
                line.pop();
            }
            out.push(line);
            proof {
                assert(rest.take(j - i) =~= s.subrange(i as int, j as int));
                assert(rest.skip(j - i + 1) =~= s.skip(j + 1));
                assert(out@.map_values(|l: Vec<char>| l@) =~= prev.map_values(|l: Vec<char>| l@).push(
                    strip_cr(rest.take(j - i)),
                ));
                assert(lines(rest) == seq![strip_cr(rest.take(j - i))] + lines(rest.skip(j - i + 1)));
                assert(out@.map_values(|l: Vec<char>| l@) + lines(s.skip(j + 1)) =~= prev.map_values(
                    |l: Vec<char>| l@,
                ) + lines(rest));
            }
            i = j + 1;
        } else {
            out.push(line);
            proof {
                assert(rest =~= s.subrange(i as int, j as int));
                assert(out@.map_values(|l: Vec<char>| l@) =~= prev.map_values(|l: Vec<char>| l@).push(
                    rest,
                ));
                assert(lines(s.skip(j as int)) =~= Seq::<Seq<char>>::empty()) by {
                    assert(s.skip(j as int).len() == 0);
                }
                assert(out@.map_values(|l: Vec<char>| l@) + lines(s.skip(j as int)) =~= prev.map_values(
                    |l: Vec<char>| l@,
                ) + lines(rest));
            }
            i = j;
        }
    }
    proof {
        assert(s.skip(i as int).len() == 0);
        assert(out@.map_values(|l: Vec<char>| l@) + lines(s.skip(i as int)) =~= out@.map_values(
            |l: Vec<char>| l@,
        ));
    }
    out
}

/// Searching `s[i..]` from its start finds the match `find_from` finds in `s` from `i`.
pub proof fn lemma_find_shift(s: Seq<char>, i: int, c: char)
    requires
        0 <= i <= s.len(),
    ensures
        find_from(s.skip(i), 0, c) == find_from(s, i, c) - i,
{
    lemma_find_shift_k(s, i, 0, c);
}

proof fn lemma_find_shift_k(s: Seq<char>, i: int, k: int, c: char)
    requires
        0 <= i <= s.len(),
        0 <= k <= s.len() - i,
    ensures
        find_from(s.skip(i), k, c) == find_from(s, i + k, c) - i,
    decreases s.len() - i - k,
{
    if k < s.len() - i && s[i + k] != c {
        lemma_find_shift_k(s, i, k + 1, c);
    }
}

/// How many times `c` occurs in `s`.
pub open spec fn char_count(s: Seq<char>, c: char) -> nat
    decreases s.len(),
{
    if s.len() == 0 {
        0
    } else {
        char_count(s.drop_last(), c) + if s.last() == c {
            1nat
        } else {
            0nat
        }
    }
}

/// The characters of `parts` joined with `sep` between consecutive parts.
pub open spec fn join(parts: Seq<Seq<char>>, sep: Seq<char>) -> Seq<char>
    decreases parts.len(),
{
    if parts.len() == 0 {
        Seq::empty()
    } else if parts.len() == 1 {
        parts[0]
    } else {
        join(parts.drop_last(), sep) + sep + parts.last()
    }
}

} // verus!

verus! {

/// Appends the characters `cs` to `out`.
pub fn push_all(out: &mut Vec<char>, cs: &[char])
    ensures
        final(out)@ == old(out)@ + cs@,
{
    let mut i: usize = 0;
    while i < cs.len()
        invariant
            i <= cs.len(),
            out@ == old(out)@ + cs@.take(i as int),
        decreases cs.len() - i,
    {
        out.push(cs[i]);
        assert(old(out)@ + cs@.take(i + 1) =~= old(out)@ + cs@.take(i as int) + seq![cs@[i as int]]);
        i += 1;
    }
    assert(cs@.take(cs.len() as int) =~= cs@);
}

/// The characters `cs[from..to]` as a vector.
pub fn chars_range(cs: &[char], from: usize, to: usize) -> (out: Vec<char>)
    requires
        from <= to <= cs@.len(),
    ensures
        out@ == cs@.subrange(from as int, to as int),
{
    let mut out: Vec<char> = Vec::new();
    let mut i: usize = from;
    while i < to
        invariant
            from <= i <= to <= cs@.len(),
            out@ == cs@.subrange(from as int, i as int),
        decreases to - i,
    {
        out.push(cs[i]);
        assert(cs@.subrange(from as int, i + 1) =~= cs@.subrange(from as int, i as int).push(
            cs@[i as int],
        ));
        i += 1;
    }
    out
}

/// Joining one more part adds the separator and the part (nothing before a first part).
pub proof fn lemma_join_push(parts: Seq<Seq<char>>, x: Seq<char>, sep: Seq<char>)
    ensures
        join(parts.push(x), sep) == if parts.len() == 0 {
            x
        } else {
            join(parts, sep) + sep + x
        },
{
    assert(parts.push(x).drop_last() =~= parts);
}

/// The views of a list of character vectors.
pub open spec fn views(parts: Seq<Vec<char>>) -> Seq<Seq<char>> {
    parts.map_values(|l: Vec<char>| l@)
}

/// The parts joined with `sep` between consecutive parts.
pub fn join_chars(parts: &Vec<Vec<char>>, sep: &[char]) -> (r: Vec<char>)
    ensures
        r@ == join(views(parts@), sep@),
{
    let ghost vs = views(parts@);
    let mut out: Vec<char> = Vec::new();
    let mut idx: usize = 0;
    while idx < parts.len()
        invariant
            idx <= parts@.len(),
            vs == views(parts@),
            out@ == join(vs.take(idx as int), sep@),
        decreases parts.len() - idx,
    {
        proof {
            assert(vs.take(idx + 1) =~= vs.take(idx as int).push(parts@[idx as int]@));
            lemma_join_push(vs.take(idx as int), parts@[idx as int]@, sep@);
        }
        if idx > 0 {
            push_all(&mut out, sep);
        }
        push_all(&mut out, parts[idx].as_slice());
        proof {
            if idx == 0 {
                assert(out@ =~= parts@[idx as int]@);
            }
        }
        idx += 1;
    }
    assert(vs.take(parts@.len() as int) =~= vs);
    out
}

/// `s` without its trailing `c` characters.
pub open spec fn trim_end_char(s: Seq<char>, c: char) -> Seq<char>
    decreases s.len(),
{
    if s.len() > 0 && s.last() == c {
        trim_end_char(s.drop_last(), c)
    } else {
        s
    }
}

/// `s` without its leading `c` characters.
pub open spec fn trim_start_char(s: Seq<char>, c: char) -> Seq<char>
    decreases s.len(),
{
    if s.len() > 0 && s[0] == c {
        trim_start_char(s.skip(1), c)
    } else {
        s
    }
}


/// Whether a rule matches at `i` depends only on what follows `i`.
pub proof fn lemma_match_rule_skip(s: Seq<char>, i: int, rules: Seq<(Seq<char>, Seq<char>)>, k: int)
    requires
        0 <= i <= s.len(),
    ensures
        match_rule(s, i, rules, k) == match_rule(s.skip(i), 0, rules, k),
    decreases rules.len() - k,
{
    if 0 <= k < rules.len() {
        let p = rules[k].0;
        if i + p.len() <= s.len() {
            assert(s.subrange(i, i + p.len()) =~= s.skip(i).subrange(0, p.len() as int));
        }
        lemma_match_rule_skip(s, i, rules, k + 1);
    }
}

/// Rewriting from `i` is rewriting what follows `i`.
pub proof fn lemma_rewrite_skip(s: Seq<char>, i: int, rules: Seq<(Seq<char>, Seq<char>)>)
    requires
        0 <= i <= s.len(),
    ensures
        rewrite_from(s, i, rules) == rewrite(s.skip(i), rules),
    decreases s.len() - i,
{
    let t = s.skip(i);
    if i < s.len() {
        lemma_match_rule_skip(s, i, rules, 0);
        lemma_match_rule_ok(s, i, rules, 0);
        match match_rule(s, i, rules, 0) {
            Some(k) => {
                let n = rules[k].0.len() as int;
                lemma_rewrite_skip(s, i + n, rules);
                lemma_rewrite_skip(t, n, rules);
                assert(t.skip(n) =~= s.skip(i + n));
            },
            None => {
                lemma_rewrite_skip(s, i + 1, rules);
                lemma_rewrite_skip(t, 1, rules);
                assert(t.skip(1) =~= s.skip(i + 1));
            },
        }
    } else {
        assert(t.len() == 0);
    }
}

/// Where rule `k` is the first to match at the start, rewriting emits its replacement and
/// goes on after its pattern.
pub proof fn lemma_rewrite_first(s: Seq<char>, rules: Seq<(Seq<char>, Seq<char>)>, k: int)
    requires
        s.len() > 0,
        match_rule(s, 0, rules, 0) == Some(k),
    ensures
        0 <= k < rules.len(),
        rules[k].0.len() <= s.len(),
        rewrite(s, rules) == rules[k].1 + rewrite(s.skip(rules[k].0.len() as int), rules),
{
    lemma_match_rule_ok(s, 0, rules, 0);
    lemma_rewrite_skip(s, rules[k].0.len() as int, rules);
}

/// Where no rule matches at the start, rewriting keeps the first character.
pub proof fn lemma_rewrite_keep(s: Seq<char>, rules: Seq<(Seq<char>, Seq<char>)>)
    requires
        s.len() > 0,
        match_rule(s, 0, rules, 0) is None,
    ensures
        rewrite(s, rules) == seq![s[0]] + rewrite(s.skip(1), rules),
{
    lemma_rewrite_skip(s, 1, rules);
}

/// Rewriting text in which no rule's pattern occurs keeps it.
pub proof fn lemma_rewrite_unmatched(s: Seq<char>, rules: Seq<(Seq<char>, Seq<char>)>)
    requires
        forall|i: int, k: int|
            0 <= k < rules.len() && rules[k].0.len() > 0 ==> !#[trigger] occurs_at(s, i, rules[k].0),
    ensures
        rewrite(s, rules) == s,
    decreases s.len(),
{
    if s.len() > 0 {
        lemma_match_rule_ok(s, 0, rules, 0);
        lemma_rewrite_keep(s, rules);
        let t = s.skip(1);
        assert forall|i: int, k: int|
            0 <= k < rules.len() && rules[k].0.len() > 0 implies !#[trigger] occurs_at(t, i, rules[k].0) by {
            let pat = rules[k].0;
            if occurs_at(t, i, pat) {
                assert(s.subrange(i + 1, i + 1 + pat.len()) =~= t.subrange(i, i + pat.len()));
                assert(occurs_at(s, i + 1, pat));
            }
        }
        lemma_rewrite_unmatched(t, rules);
        assert(seq![s[0]] + t =~= s);
    }
}

/// Rewriting text in which no rule's pattern starts with any of its characters keeps it.
pub proof fn lemma_rewrite_identity(s: Seq<char>, rules: Seq<(Seq<char>, Seq<char>)>)
    requires
        forall|i: int, k: int|
            0 <= i < s.len() && 0 <= k < rules.len() && rules[k].0.len() > 0 ==> rules[k].0[0]
                != #[trigger] s[i] || #[trigger] rules[k].0.len() == 0,
    ensures
        rewrite(s, rules) == s,
    decreases s.len(),
{
    if s.len() > 0 {
        lemma_match_rule_ok(s, 0, rules, 0);
        if match_rule(s, 0, rules, 0) is Some {
            let k = match_rule(s, 0, rules, 0)->0;
            assert(s.subrange(0, rules[k].0.len() as int)[0] == s[0]);
            assert(rules[k].0[0] != s[0] || rules[k].0.len() == 0);
        }
        lemma_rewrite_keep(s, rules);
        let t = s.skip(1);
        assert forall|i: int, k: int|
            0 <= i < t.len() && 0 <= k < rules.len() && rules[k].0.len() > 0 implies rules[k].0[0]
                != #[trigger] t[i] || #[trigger] rules[k].0.len() == 0 by {
            assert(t[i] == s[i + 1]);
        }
        lemma_rewrite_identity(t, rules);
        assert(seq![s[0]] + t =~= s);
    } else {
        assert(rewrite(s, rules) =~= s);
    }
}

pub open spec fn digit_char(d: int) -> char {
    if d == 0 {
        '0'
    } else if d == 1 {
        '1'
    } else if d == 2 {
        '2'
    } else if d == 3 {
        '3'
    } else if d == 4 {
        '4'
    } else if d == 5 {
        '5'
    } else if d == 6 {
        '6'
    } else if d == 7 {
        '7'
    } else if d == 8 {
        '8'
    } else {
        '9'
    }
}

/// The decimal digits of `n`.
pub open spec fn decimal(n: nat) -> Seq<char>
    decreases n,
{
    if n < 10 {
        seq![digit_char(n as int)]
    } else {
        decimal(n / 10).push(digit_char((n % 10) as int))
    }
}

/// The decimal digits of `n` (see `decimal`).
pub fn decimal_exec(n: usize) -> (r: Vec<char>)
    ensures
        r@ == decimal(n as nat),
    decreases n,
{
    let d = n % 10;
    let c = if d == 0 {
        '0'
    } else if d == 1 {
        '1'
    } else if d == 2 {
        '2'
    } else if d == 3 {
        '3'
    } else if d == 4 {
        '4'
    } else if d == 5 {
        '5'
    } else if d == 6 {
        '6'
    } else if d == 7 {
        '7'
    } else if d == 8 {
        '8'
    } else {
        '9'
    };
    assert(c == digit_char(d as int));
    if n < 10 {
        let mut v: Vec<char> = Vec::new();
        v.push(c);
        assert(v@ =~= seq![digit_char(n as int)]);
        v
    } else {
        let mut v = decimal_exec(n / 10);
        v.push(c);
        v
    }
}

} // verus!

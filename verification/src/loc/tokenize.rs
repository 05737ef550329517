//! The line format of a localisation file:
//!
//! ```text
//! <BOM?>l_<lang>:
//!  key[:version] "value" # comment
//! ```
//!
//! Blank lines and `#` comment lines are skipped; a line that is no pair becomes a warning.

use vstd::prelude::*;

use crate::text::chars_of;
use super::inline::{parse_inline_chars, ref_key_end, spec_parse_inline, view_inlines, InlineNode, SInline, is_ref_key_char, lemma_ref_key_end};
use crate::text::{
    ascii_digit, chars_range, decimal, decimal_exec, find_char_from, find_from, is_ascii_digit,
    lines, split_lines, string_of, trim_bounds, trim_end_char, trim_start, views,
};

verus! {

/// A localisation file: its language header, its entries and the lines it could not read.
#[derive(Debug, Clone)]
pub struct LocFile {
    pub lang: String,
    pub entries: Vec<LocEntry>,
    pub warnings: Vec<LocWarning>,
}

/// One `key[:version] "value"` line, with the value's inline markup read.
#[derive(Debug, Clone)]
pub struct LocEntry {
    pub key: String,
    pub version: Option<u32>,
    pub raw: String,
    pub nodes: Vec<InlineNode>,
}

/// A line after the header that is no pair.
#[derive(Debug, Clone)]
pub struct LocWarning {
    pub line: usize,
    pub kind: String,
    pub raw_line: String,
}

/// The model of an entry.
pub struct SLocEntry {
    pub key: Seq<char>,
    pub version: Option<u32>,
    pub raw: Seq<char>,
    pub nodes: Seq<SInline>,
}

/// The model of a warning.
pub struct SLocWarning {
    pub line: nat,
    pub kind: Seq<char>,
    pub raw_line: Seq<char>,
}

/// The model of a file.
pub struct SLocFile {
    pub lang: Seq<char>,
    pub entries: Seq<SLocEntry>,
    pub warnings: Seq<SLocWarning>,
}

pub open spec fn view_loc_entry(e: LocEntry) -> SLocEntry {
    SLocEntry { key: e.key@, version: e.version, raw: e.raw@, nodes: view_inlines(e.nodes@) }
}

pub open spec fn view_loc_warning(w: LocWarning) -> SLocWarning {
    SLocWarning { line: w.line as nat, kind: w.kind@, raw_line: w.raw_line@ }
}

pub open spec fn view_loc_entries(es: Seq<LocEntry>) -> Seq<SLocEntry> {
    es.map_values(|e: LocEntry| view_loc_entry(e))
}

pub open spec fn view_loc_warnings(ws: Seq<LocWarning>) -> Seq<SLocWarning> {
    ws.map_values(|w: LocWarning| view_loc_warning(w))
}

pub open spec fn view_loc_file(f: LocFile) -> SLocFile {
    SLocFile {
        lang: f.lang@,
        entries: view_loc_entries(f.entries@),
        warnings: view_loc_warnings(f.warnings@),
    }
}

/// The byte order mark that may open a file.
pub open spec fn bom() -> char {
    '\u{FEFF}'
}

/// A language header `l_<lang>:`: the part before the first colon, when it starts with
/// `l_` and holds only ASCII letters, digits and underscores.
pub open spec fn loc_header(t: Seq<char>) -> Option<Seq<char>> {
    let colon = find_from(t, 0, ':');
    if !(t.len() >= 2 && t[0] == 'l' && t[1] == '_') || colon >= t.len() {
        None
    } else if forall|k: int| 0 <= k < colon ==> is_header_char(#[trigger] t[k]) {
        Some(t.take(colon))
    } else {
        None
    }
}

pub open spec fn is_header_char(c: char) -> bool {
    ('0' <= c && c <= '9') || ('a' <= c && c <= 'z') || ('A' <= c && c <= 'Z') || c == '_'
}

/// The end of the run of ASCII digits of `s` from `j`.
pub open spec fn digits_end(s: Seq<char>, j: int) -> int
    decreases s.len() - j,
{
    if 0 <= j < s.len() && is_ascii_digit(s[j]) {
        digits_end(s, j + 1)
    } else {
        j
    }
}

/// The number written by decimal digits.
pub open spec fn digits_value(ds: Seq<char>) -> nat
    decreases ds.len(),
{
    if ds.len() == 0 {
        0
    } else {
        digits_value(ds.drop_last()) * 10 + ((ds.last() as int - '0' as int) as nat)
    }
}

/// A version number: the value of the digits when it fits in a `u32`.
pub open spec fn loc_version(ds: Seq<char>) -> Option<u32> {
    if ds.len() > 0 && digits_value(ds) <= u32::MAX {
        Some(digits_value(ds) as u32)
    } else {
        None
    }
}

/// Where the quoted value ends: the first `"` not escaped by a backslash, or the end of the
/// line when the quote is never closed.
pub open spec fn quote_end(v: Seq<char>, k: int) -> int
    decreases v.len() - k,
{
    if k < 0 || k >= v.len() {
        v.len() as int
    } else if v[k] == '\\' && k + 1 < v.len() {
        quote_end(v, k + 2)
    } else if v[k] == '"' {
        k
    } else {
        quote_end(v, k + 1)
    }
}

/// A pair line `key:[version] "value"`: the key, the version, and the raw value.
pub open spec fn loc_pair(s: Seq<char>) -> Option<(Seq<char>, Option<u32>, Seq<char>)> {
    let key_end = ref_key_end(s, 0);
    if key_end == 0 || key_end >= s.len() || s[key_end] != ':' {
        None
    } else {
        let stripped = s.skip(key_end + 1);
        let ver_end = digits_end(stripped, 0);
        let after_ws = trim_start(stripped.skip(ver_end));
        if after_ws.len() == 0 || after_ws[0] != '"' {
            None
        } else {
            let value = after_ws.skip(1);
            Some((s.take(key_end), loc_version(stripped.take(ver_end)), value.take(quote_end(value, 0))))
        }
    }
}

/// What has been read of a file: the language once its header is read, the entries and the
/// warnings.
pub struct LocState {
    pub lang: Option<Seq<char>>,
    pub entries: Seq<SLocEntry>,
    pub warnings: Seq<SLocWarning>,
}

/// A line without a leading byte order mark (on the first line) and without trailing
/// carriage returns.
pub open spec fn clean_line(idx: nat, raw: Seq<char>) -> Seq<char> {
    let l = if idx == 0 && raw.len() > 0 && raw[0] == bom() {
        raw.skip(1)
    } else {
        raw
    };
    trim_end_char(l, '\r')
}

/// Reads the line at `idx` (numbered from 0); fails with the line's number when the header
/// is missing.
pub open spec fn loc_step(st: LocState, idx: nat, raw: Seq<char>) -> Result<LocState, nat> {
    let t = trim_start(clean_line(idx, raw));
    if t.len() == 0 || t[0] == '#' {
        Ok(st)
    } else if st.lang is None {
        match loc_header(t) {
            Some(l) => Ok(LocState { lang: Some(l), ..st }),
            None => Err(idx + 1),
        }
    } else {
        match loc_pair(t) {
            Some((key, version, value)) => Ok(
                LocState {
                    entries: st.entries.push(
                        SLocEntry { key, version, raw: value, nodes: spec_parse_inline(value) },
                    ),
                    ..st
                },
            ),
            None => Ok(
                LocState {
                    warnings: st.warnings.push(
                        SLocWarning { line: idx + 1, kind: "unrecognized_line"@, raw_line: raw },
                    ),
                    ..st
                },
            ),
        }
    }
}

/// Reads the lines in order, stopping at the first failure.
pub open spec fn loc_fold(ls: Seq<Seq<char>>) -> Result<LocState, nat>
    decreases ls.len(),
{
    if ls.len() == 0 {
        Ok(LocState { lang: None, entries: seq![], warnings: seq![] })
    } else {
        match loc_fold(ls.drop_last()) {
            Err(n) => Err(n),
            Ok(st) => loc_step(st, (ls.len() - 1) as nat, ls.last()),
        }
    }
}

/// The message for a file whose first line is no header.
pub open spec fn missing_header_message(line: nat) -> Seq<char> {
    "第 "@ + decimal(line) + " 行：缺少 l_<lang>: 文件头"@
}

/// The message for a file without any header.
pub open spec fn empty_file_message() -> Seq<char> {
    "文件为空或缺少 l_<lang>: 文件头"@
}

/// What `parse_loc` reads out of a text.
pub open spec fn spec_parse_loc(s: Seq<char>) -> Result<SLocFile, Seq<char>> {
    match loc_fold(lines(s)) {
        Err(n) => Err(missing_header_message(n)),
        Ok(st) => match st.lang {
            None => Err(empty_file_message()),
            Some(l) => Ok(SLocFile { lang: l, entries: st.entries, warnings: st.warnings }),
        },
    }
}


/// Whether the line at `idx` means anything: not blank and not a comment.
pub open spec fn is_significant(idx: nat, raw: Seq<char>) -> bool {
    let t = trim_start(clean_line(idx, raw));
    t.len() > 0 && t[0] != '#'
}

/// How many of the lines mean anything.
pub open spec fn significant_count(ls: Seq<Seq<char>>) -> nat
    decreases ls.len(),
{
    if ls.len() == 0 {
        0
    } else {
        significant_count(ls.drop_last()) + if is_significant((ls.len() - 1) as nat, ls.last()) {
            1nat
        } else {
            0nat
        }
    }
}

/// Each entry's nodes are the inline reading of its text.
pub open spec fn entries_read_inline(es: Seq<SLocEntry>) -> bool {
    forall|i: int| 0 <= i < es.len() ==> (#[trigger] es[i]).nodes == spec_parse_inline(es[i].raw)
}

proof fn lemma_loc_fold_shape(ls: Seq<Seq<char>>)
    ensures
        loc_fold(ls) matches Ok(st) ==> entries_read_inline(st.entries) && if st.lang is Some {
            st.entries.len() + st.warnings.len() + 1 == significant_count(ls)
        } else {
            significant_count(ls) == 0 && st.entries.len() == 0 && st.warnings.len() == 0
        },
    decreases ls.len(),
{
    if ls.len() > 0 {
        lemma_loc_fold_shape(ls.drop_last());
        if let Ok(st) = loc_fold(ls.drop_last()) {
            let idx = (ls.len() - 1) as nat;
            if let Ok(st2) = loc_step(st, idx, ls.last()) {
                assert forall|i: int| 0 <= i < st2.entries.len() implies (#[trigger] st2.entries[i]).nodes
                    == spec_parse_inline(st2.entries[i].raw) by {
                    if i < st.entries.len() {
                        assert(st2.entries[i] == st.entries[i]);
                    }
                }
            }
        }
    }
}

/// A localisation file that reads has one header line, and each later line that is neither
/// blank nor a comment gives exactly one entry or one warning; each entry's nodes are the
/// inline reading of its text.
pub proof fn lemma_parse_loc_shape(s: Seq<char>)
    ensures
        spec_parse_loc(s) matches Ok(f) ==> f.entries.len() + f.warnings.len() + 1
            == significant_count(lines(s)) && entries_read_inline(f.entries),
{
    lemma_loc_fold_shape(lines(s));
}

proof fn lemma_ref_key_run(cs: Seq<char>, j: int, e: int)
    requires
        0 <= j <= e <= cs.len(),
        forall|k: int| j <= k < e ==> is_ref_key_char(#[trigger] cs[k]),
        e == cs.len() || !is_ref_key_char(cs[e]),
    ensures
        ref_key_end(cs, j) == e,
    decreases e - j,
{
    if j < e {
        lemma_ref_key_run(cs, j + 1, e);
    }
}

proof fn lemma_digits_run(s: Seq<char>, j: int, e: int)
    requires
        0 <= j <= e <= s.len(),
        forall|k: int| j <= k < e ==> is_ascii_digit(#[trigger] s[k]),
        e == s.len() || !is_ascii_digit(s[e]),
    ensures
        digits_end(s, j) == e,
    decreases e - j,
{
    if j < e {
        lemma_digits_run(s, j + 1, e);
    }
}

proof fn lemma_quote_run(v: Seq<char>, k: int, e: int)
    requires
        0 <= k <= e < v.len(),
        forall|m: int| k <= m < e ==> #[trigger] v[m] != '"' && v[m] != '\\',
        v[e] == '"',
    ensures
        quote_end(v, k) == e,
    decreases e - k,
{
    if k < e {
        lemma_quote_run(v, k + 1, e);
    }
}

/// A pair line `key:digits "value"` (a key of reference-key characters, a run of digits, one
/// space, and a quoted value without quotes or backslashes) gives that key, the version the
/// digits spell, and that value.
pub proof fn lemma_loc_pair_line(key: Seq<char>, ds: Seq<char>, v: Seq<char>)
    requires
        key.len() > 0,
        forall|i: int| 0 <= i < key.len() ==> is_ref_key_char(#[trigger] key[i]),
        forall|i: int| 0 <= i < ds.len() ==> is_ascii_digit(#[trigger] ds[i]),
        forall|i: int| 0 <= i < v.len() ==> #[trigger] v[i] != '"' && v[i] != '\\',
    ensures
        loc_pair(key + seq![':'] + ds + seq![' ', '"'] + v + seq!['"']) == Some(
            (key, loc_version(ds), v),
        ),
{
    let t = key + seq![':'] + ds + seq![' ', '"'] + v + seq!['"'];
    let kl = key.len() as int;
    assert forall|k: int| 0 <= k < kl implies is_ref_key_char(#[trigger] t[k]) by {
        assert(t[k] == key[k]);
    }
    assert(t[kl] == ':');
    lemma_ref_key_run(t, 0, kl);
    let stripped = t.skip(kl + 1);
    assert(stripped =~= ds + seq![' ', '"'] + v + seq!['"']);
    let dl = ds.len() as int;
    assert forall|k: int| 0 <= k < dl implies is_ascii_digit(#[trigger] stripped[k]) by {
        assert(stripped[k] == ds[k]);
    }
    assert(stripped[dl] == ' ');
    lemma_digits_run(stripped, 0, dl);
    let rest = stripped.skip(dl);
    assert(rest =~= seq![' ', '"'] + v + seq!['"']);
    assert(rest.skip(1) =~= seq!['"'] + v + seq!['"']);
    assert(trim_start(rest) == trim_start(rest.skip(1)));
    assert(trim_start(rest.skip(1)) == rest.skip(1));
    let after_ws = rest.skip(1);
    let value = after_ws.skip(1);
    assert(value =~= v + seq!['"']);
    assert forall|m: int| 0 <= m < v.len() implies #[trigger] value[m] != '"' && value[m] != '\\' by {
        assert(value[m] == v[m]);
    }
    lemma_quote_run(value, 0, v.len() as int);
    assert(value.take(v.len() as int) =~= v);
    assert(stripped.take(dl) =~= ds);
    assert(t.take(kl) =~= key);
}

/// The version a run of digits gives is read as a decimal number: nothing from no digits; a
/// single digit gives its value (`0` gives 0); one more digit multiplies by ten and adds it,
/// while the number fits in a `u32`, and gives nothing once it does not.
pub proof fn lemma_loc_version_reads_decimal(ds: Seq<char>, d: char)
    requires
        forall|i: int| 0 <= i < ds.len() ==> is_ascii_digit(#[trigger] ds[i]),
        is_ascii_digit(d),
    ensures
        loc_version(Seq::empty()) is None,
        loc_version(seq![d]) == Some((d as int - '0' as int) as u32),
        match loc_version(ds) {
            Some(m) => if m * 10 + (d as int - '0' as int) <= u32::MAX {
                loc_version(ds.push(d)) == Some((m * 10 + (d as int - '0' as int)) as u32)
            } else {
                loc_version(ds.push(d)) is None
            },
            None => ds.len() > 0 ==> loc_version(ds.push(d)) is None,
        },
{
    assert(seq![d].drop_last() =~= Seq::<char>::empty());
    assert(digits_value(Seq::<char>::empty()) == 0);
    assert(digits_value(seq![d]) == (d as int - '0' as int));
    assert(ds.push(d).drop_last() =~= ds);
    assert(ds.push(d).last() == d);
    assert(digits_value(ds.push(d)) == digits_value(ds) * 10 + ((d as int - '0' as int) as nat));
}

/// The number (from 0) of the first line that means anything, if there is one.
pub open spec fn first_significant(ls: Seq<Seq<char>>) -> Option<nat>
    decreases ls.len(),
{
    if ls.len() == 0 {
        None
    } else {
        match first_significant(ls.drop_last()) {
            Some(i) => Some(i),
            None => if is_significant((ls.len() - 1) as nat, ls.last()) {
                Some((ls.len() - 1) as nat)
            } else {
                None
            },
        }
    }
}

/// The header that the line at `idx` would give: its text without byte order mark, trailing
/// carriage returns and leading whitespace, read as `l_<lang>:`.
pub open spec fn line_header(idx: nat, raw: Seq<char>) -> Option<Seq<char>> {
    loc_header(trim_start(clean_line(idx, raw)))
}

proof fn lemma_loc_fold_header(ls: Seq<Seq<char>>)
    ensures
        match first_significant(ls) {
            None => loc_fold(ls) matches Ok(st) && st.lang is None,
            Some(i) => i < ls.len() && match line_header(i, ls[i as int]) {
                None => loc_fold(ls) == Err::<LocState, nat>(i + 1),
                Some(l) => loc_fold(ls) matches Ok(st) && st.lang == Some(l),
            },
        },
    decreases ls.len(),
{
    if ls.len() > 0 {
        let prev = ls.drop_last();
        lemma_loc_fold_header(prev);
        if let Some(i) = first_significant(prev) {
            assert(ls[i as int] == prev[i as int]);
        }
    }
}

/// A localisation file reads exactly when its first line that is neither blank nor a comment
/// (ignoring a byte order mark, trailing carriage returns and leading whitespace) is a header
/// `l_<lang>:` whose part before the first colon starts with `l_` and holds only ASCII
/// letters, digits and underscores; that part is the file's language.  A file without such a
/// line is refused as empty, and one whose first such line is no header is refused with that
/// line's number.
pub proof fn lemma_parse_loc_header(s: Seq<char>)
    ensures
        match first_significant(lines(s)) {
            None => spec_parse_loc(s) == Err::<SLocFile, Seq<char>>(empty_file_message()),
            Some(i) => match line_header(i, lines(s)[i as int]) {
                None => spec_parse_loc(s) == Err::<SLocFile, Seq<char>>(
                    missing_header_message(i + 1),
                ),
                Some(l) => spec_parse_loc(s) matches Ok(f) && f.lang == l,
            },
        },
{
    lemma_loc_fold_header(lines(s));
}

} // verus!

verus! {

/// The language header of a trimmed line (see `loc_header`).
fn header_exec(t: &[char]) -> (r: Option<Vec<char>>)
    ensures
        match r {
            Some(l) => loc_header(t@) == Some(l@),
            None => loc_header(t@) is None,
        },
{
    let n = t.len();
    if !(n >= 2 && t[0] == 'l' && t[1] == '_') {
        return None;
    }
    let colon = find_char_from(t, 0, ':');
    if colon >= n {
        return None;
    }
    let mut k: usize = 0;
    while k < colon
        invariant
            k <= colon < t@.len(),
            colon as int == find_from(t@, 0, ':'),
            t@.len() >= 2 && t@[0] == 'l' && t@[1] == '_',
            forall|m: int| 0 <= m < k ==> is_header_char(#[trigger] t@[m]),
        decreases colon - k,
    {
        let c = t[k];
        if !(('0' <= c && c <= '9') || ('a' <= c && c <= 'z') || ('A' <= c && c <= 'Z') || c
            == '_') {
            assert(!is_header_char(t@[k as int]));
            return None;
        }
        k += 1;
    }
    let head = chars_range(t, 0, colon);
    assert(head@ =~= t@.take(colon as int));
    Some(head)
}

/// The value of one ASCII digit.
fn digit_value(c: char) -> (r: u64)
    requires
        is_ascii_digit(c),
    ensures
        r as int == c as int - '0' as int,
        r <= 9,
{
    (c as u32 - '0' as u32) as u64
}

/// The version written by `ds[from..to]`, all ASCII digits (see `loc_version`).
fn version_exec(ds: &[char], from: usize, to: usize) -> (r: Option<u32>)
    requires
        from <= to <= ds@.len(),
        forall|k: int| from <= k < to ==> is_ascii_digit(#[trigger] ds@[k]),
    ensures
        r == loc_version(ds@.subrange(from as int, to as int)),
{
    let ghost s = ds@.subrange(from as int, to as int);
    let mut acc: u64 = 0;
    let mut over = false;
    let mut i: usize = from;
    assert(ds@.subrange(from as int, from as int) =~= Seq::<char>::empty());
    while i < to
        invariant
            from <= i <= to <= ds@.len(),
            forall|k: int| from <= k < to ==> is_ascii_digit(#[trigger] ds@[k]),
            over == (digits_value(ds@.subrange(from as int, i as int)) > u32::MAX),
            !over ==> acc == digits_value(ds@.subrange(from as int, i as int)),
        decreases to - i,
    {
        let ghost p = ds@.subrange(from as int, i as int);
        let ghost q = ds@.subrange(from as int, i + 1);
        assert(q.drop_last() =~= p);
        assert(q.last() == ds@[i as int]);
        let d = digit_value(ds[i]);
        if !over {
            acc = acc * 10 + d;
            if acc > 4294967295u64 {
                over = true;
            }
        }
        i += 1;
    }
    if from == to || over {
        None
    } else {
        Some(acc as u32)
    }
}

/// Where the quoted value `v` ends (see `quote_end`).
fn quote_end_exec(v: &[char]) -> (r: usize)
    ensures
        r as int == quote_end(v@, 0),
        r <= v@.len(),
{
    let n = v.len();
    let mut k: usize = 0;
    while k < n
        invariant
            n == v@.len(),
            k <= n + 1,
            quote_end(v@, 0) == quote_end(v@, k as int),
        decreases n + 1 - k,
    {
        if v[k] == '\\' && k + 1 < n {
            k += 2;
        } else if v[k] == '"' {
            return k;
        } else {
            k += 1;
        }
    }
    n
}

/// A pair line (see `loc_pair`).
fn pair_exec(s: &[char]) -> (r: Option<(Vec<char>, Option<u32>, Vec<char>)>)
    ensures
        match r {
            Some((k, ver, raw)) => loc_pair(s@) == Some((k@, ver, raw@)),
            None => loc_pair(s@) is None,
        },
{
    let n = s.len();
    let mut key_end: usize = 0;
    while key_end < n && ((('0' <= s[key_end] && s[key_end] <= '9') || ('a' <= s[key_end]
        && s[key_end] <= 'z') || ('A' <= s[key_end] && s[key_end] <= 'Z')) || s[key_end] == '_'
        || s[key_end] == '.' || s[key_end] == '-')
        invariant
            key_end <= n == s@.len(),
            ref_key_end(s@, 0) == ref_key_end(s@, key_end as int),
        decreases n - key_end,
    {
        assert(is_ref_key_char(s@[key_end as int]));
        key_end += 1;
    }
    if key_end == 0 || key_end >= n || s[key_end] != ':' {
        return None;
    }
    let ghost stripped = s@.skip(key_end + 1);
    let mut ver_end: usize = key_end + 1;
    while ver_end < n && ascii_digit(s[ver_end])
        invariant
            key_end + 1 <= ver_end <= n == s@.len(),
            stripped == s@.skip(key_end + 1),
            digits_end(stripped, 0) == digits_end(stripped, ver_end - key_end - 1),
            forall|k: int| key_end + 1 <= k < ver_end ==> is_ascii_digit(#[trigger] s@[k]),
        decreases n - ver_end,
    {
        ver_end += 1;
    }
    let version = version_exec(s, key_end + 1, ver_end);
    assert(stripped.take(ver_end - key_end - 1) =~= s@.subrange(key_end + 1, ver_end as int));
    let (a, _b) = trim_bounds(s, ver_end, n);
    assert(stripped.skip(ver_end - key_end - 1) =~= s@.subrange(ver_end as int, n as int));
    if a >= n || s[a] != '"' {
        return None;
    }
    let value = chars_range(s, a + 1, n);
    let ghost after_ws = trim_start(stripped.skip(ver_end - key_end - 1));
    assert(after_ws.skip(1) =~= value@);
    let e = quote_end_exec(value.as_slice());
    let raw = chars_range(value.as_slice(), 0, e);
    let key = chars_range(s, 0, key_end);
    assert(key@ =~= s@.take(key_end as int));
    assert(raw@ =~= value@.take(e as int));
    Some((key, version, raw))
}

/// The message for a file whose first line at `line` is no header.
fn missing_header_exec(line: usize) -> (r: String)
    ensures
        r@ == missing_header_message(line as nat),
{
    let mut m = "第 ".to_owned();
    let digits = decimal_exec(line);
    let ds = string_of(digits.as_slice());
    m.append(ds.as_str());
    m.append(" 行：缺少 l_<lang>: 文件头");
    m
}

pub open spec fn lang_view(o: Option<Vec<char>>) -> Option<Seq<char>> {
    match o {
        Some(l) => Some(l@),
        None => None,
    }
}

/// Once reading fails, reading more lines fails the same way.
proof fn lemma_loc_fold_err(ls: Seq<Seq<char>>, k: int)
    requires
        0 <= k <= ls.len(),
        loc_fold(ls.take(k)) is Err,
    ensures
        loc_fold(ls) == loc_fold(ls.take(k)),
    decreases ls.len() - k,
{
    if k < ls.len() {
        assert(ls.take(k + 1).drop_last() =~= ls.take(k));
        lemma_loc_fold_err(ls, k + 1);
    } else {
        assert(ls.take(k) =~= ls);
    }
}

/// Reads the line at `idx` into the state (see `loc_step`); returns the line's number when
/// the header is missing.
fn read_loc_line(
    idx: usize,
    raw: &Vec<char>,
    lang: &mut Option<Vec<char>>,
    entries: &mut Vec<LocEntry>,
    warnings: &mut Vec<LocWarning>,
) -> (r: Option<usize>)
    requires
        idx < usize::MAX,
    ensures
        ({
            let st = LocState {
                lang: lang_view(*old(lang)),
                entries: view_loc_entries(old(entries)@),
                warnings: view_loc_warnings(old(warnings)@),
            };
            match loc_step(st, idx as nat, raw@) {
                Ok(st2) => r is None && lang_view(*final(lang)) == st2.lang && view_loc_entries(
                    final(entries)@,
                ) == st2.entries && view_loc_warnings(final(warnings)@) == st2.warnings,
                Err(n) => r == Some(n as usize) && n == idx + 1,
            }
        }),
{
    let n = raw.len();
    let from: usize = if idx == 0 && n > 0 && raw[0] == '\u{FEFF}' {
        1
    } else {
        0
    };
    let mut end = n;
    while end > from && raw[end - 1] == '\r'
        invariant
            from <= end <= n == raw@.len(),
            trim_end_char(raw@.subrange(from as int, n as int), '\r') == trim_end_char(
                raw@.subrange(from as int, end as int),
                '\r',
            ),
        decreases end,
    {
        assert(raw@.subrange(from as int, end as int).drop_last() =~= raw@.subrange(
            from as int,
            end - 1,
        ));
        end -= 1;
    }
    proof {
        assert(trim_end_char(raw@.subrange(from as int, end as int), '\r') == raw@.subrange(
            from as int,
            end as int,
        ));
        if from == 1 {
            assert(raw@.skip(1) =~= raw@.subrange(1, n as int));
        } else {
            assert(raw@ =~= raw@.subrange(0, n as int));
        }
        assert(clean_line(idx as nat, raw@) == raw@.subrange(from as int, end as int));
    }
    let (a, _b) = trim_bounds(raw.as_slice(), from, end);
    let trimmed = chars_range(raw.as_slice(), a, end);
    if trimmed.len() == 0 || trimmed[0] == '#' {
        return None;
    }
    if lang.is_none() {
        match header_exec(trimmed.as_slice()) {
            Some(l) => {
                *lang = Some(l);
                None
            },
            None => Some(idx + 1),
        }
    } else {
        match pair_exec(trimmed.as_slice()) {
            Some((key, version, value)) => {
                let nodes = parse_inline_chars(value.as_slice());
                let e = LocEntry {
                    key: string_of(key.as_slice()),
                    version,
                    raw: string_of(value.as_slice()),
                    nodes,
                };
                let ghost ev = view_loc_entry(e);
                entries.push(e);
                assert(view_loc_entries(entries@) =~= view_loc_entries(old(entries)@).push(ev));
                None
            },
            None => {
                let w = LocWarning {
                    line: idx + 1,
                    kind: "unrecognized_line".to_owned(),
                    raw_line: string_of(raw.as_slice()),
                };
                let ghost wv = view_loc_warning(w);
                warnings.push(w);
                assert(view_loc_warnings(warnings@) =~= view_loc_warnings(old(warnings)@).push(wv));
                None
            },
        }
    }
}

/// Reads a localisation file (see `spec_parse_loc`): the `l_<lang>:` header, then one entry
/// per `key[:version] "value"` line; blank and `#` lines are skipped and any other line
/// becomes an `unrecognized_line` warning.  A first line that is no header, and a file
/// without one, are refused.
pub fn parse_loc(input: &str) -> (r: Result<LocFile, String>)
    ensures
        match r {
            Ok(f) => spec_parse_loc(input@) == Ok::<SLocFile, Seq<char>>(view_loc_file(f)),
            Err(m) => spec_parse_loc(input@) == Err::<SLocFile, Seq<char>>(m@),
        },
{
    let cs = chars_of(input);
    let ls = split_lines(cs.as_slice());
    let ghost vl = views(ls@);
    assert(vl == lines(input@));
    let mut lang: Option<Vec<char>> = None;
    let mut entries: Vec<LocEntry> = Vec::new();
    let mut warnings: Vec<LocWarning> = Vec::new();
    let mut idx: usize = 0;
    assert(vl.take(0) =~= Seq::<Seq<char>>::empty());
    assert(view_loc_entries(entries@) =~= Seq::<SLocEntry>::empty());
    assert(view_loc_warnings(warnings@) =~= Seq::<SLocWarning>::empty());
    while idx < ls.len()
        invariant
            idx <= ls@.len(),
            vl == views(ls@),
            vl == lines(input@),
            loc_fold(vl.take(idx as int)) is Ok,
            loc_fold(vl.take(idx as int))->Ok_0.lang == lang_view(lang),
            loc_fold(vl.take(idx as int))->Ok_0.entries == view_loc_entries(entries@),
            loc_fold(vl.take(idx as int))->Ok_0.warnings == view_loc_warnings(warnings@),
        decreases ls.len() - idx,
    {
        proof {
            assert(vl.take(idx + 1).drop_last() =~= vl.take(idx as int));
            assert(vl.take(idx + 1).last() == ls@[idx as int]@);
        }
        match read_loc_line(idx, &ls[idx], &mut lang, &mut entries, &mut warnings) {
            Some(line) => {
                proof {
                    lemma_loc_fold_err(vl, idx + 1);
                }
                return Err(missing_header_exec(line));
            },
            None => {},
        }
        idx += 1;
    }
    assert(vl.take(ls@.len() as int) =~= vl);
    match lang {
        None => Err("文件为空或缺少 l_<lang>: 文件头".to_owned()),
        Some(l) => Ok(LocFile { lang: string_of(l.as_slice()), entries, warnings }),
    }
}

} // verus!

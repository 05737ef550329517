//! The rules the command-line tools apply around the library: which files they take, how
//! they read their arguments, how they name JSON keys and how they report a difference.

use vstd::prelude::*;

use crate::ast::{view_entry, Entry};
use crate::text::{
    chars_of, debug_str, debug_text, chars_range, decimal, decimal_exec, join_chars, lines, push_all, rewrite,
    rewrite_exec, rules_view, split_lines, string_of, trim, trim_bounds, trim_start_char, views,
};

verus! {

/// The kind of file a batch extraction reads.
#[derive(Debug, Clone, Copy, PartialEq, Eq)]
pub enum Mode {
    Script,
    Loc,
}

/// A line that holds something: not blank and not a `#` comment.
pub open spec fn is_content_line(l: Seq<char>) -> bool {
    trim(l).len() > 0 && trim(l)[0] != '#'
}

/// A content line that looks like script: it holds `=`, `{` or `}`.
pub open spec fn is_script_line(l: Seq<char>) -> bool {
    l.contains('=') || l.contains('{') || l.contains('}')
}

/// A text is a plain list (not script) when it has a content line and none of its content
/// lines holds `=`, `{` or `}`.
pub open spec fn spec_is_plain_list_text(s: Seq<char>) -> bool {
    &&& exists|i: int| 0 <= i < lines(s).len() && is_content_line(#[trigger] lines(s)[i])
    &&& forall|i: int|
        0 <= i < lines(s).len() && is_content_line(#[trigger] lines(s)[i]) ==> !is_script_line(
            trim(lines(s)[i]),
        )
}

/// Whether a text is a plain list rather than script (see `spec_is_plain_list_text`).
pub fn is_plain_list_text(source: &str) -> (r: bool)
    ensures
        r == spec_is_plain_list_text(source@),
{
    let cs = chars_of(source);
    let ls = split_lines(cs.as_slice());
    let ghost vl = views(ls@);
    assert(vl == lines(source@));
    let mut has_content = false;
    let mut i: usize = 0;
    while i < ls.len()
        invariant
            i <= ls@.len(),
            vl == views(ls@),
            vl == lines(source@),
            has_content == (exists|k: int| 0 <= k < i && is_content_line(#[trigger] vl[k])),
            forall|k: int| 0 <= k < i && is_content_line(#[trigger] vl[k]) ==> !is_script_line(
                trim(vl[k]),
            ),
        decreases ls.len() - i,
    {
        let line = &ls[i];
        assert(vl[i as int] == line@);
        let (a, b) = trim_bounds(line.as_slice(), 0, line.len());
        assert(line@.subrange(0, line@.len() as int) =~= line@);
        let t = chars_range(line.as_slice(), a, b);
        if t.len() == 0 || t[0] == '#' {
            i += 1;
            continue;
        }
        has_content = true;
        assert(is_content_line(vl[i as int]));
        let mut j: usize = 0;
        while j < t.len()
            invariant
                j <= t@.len(),
                i < vl.len(),
                t@ == trim(vl[i as int]),
                is_content_line(vl[i as int]),
                vl == lines(source@),
                forall|m: int| 0 <= m < j ==> t@[m] != '=' && t@[m] != '{' && t@[m] != '}',
            decreases t.len() - j,
        {
            if t[j] == '=' || t[j] == '{' || t[j] == '}' {
                assert(is_script_line(t@));
                return false;
            }
            j += 1;
        }
        assert(!is_script_line(t@));
        i += 1;
    }
    has_content
}

/// A character with ASCII letters folded to lower case.
pub open spec fn ascii_fold(c: char) -> char {
    if 'A' <= c && c <= 'Z' {
        ((c as u8) + 32) as char
    } else {
        c
    }
}

/// Whether two texts are equal when ASCII letters are compared without case (std's
/// `str::eq_ignore_ascii_case`).
pub open spec fn eq_ignore_ascii_case(a: Seq<char>, b: Seq<char>) -> bool {
    a.len() == b.len() && forall|i: int| 0 <= i < a.len() ==> ascii_fold(#[trigger] a[i])
        == ascii_fold(b[i])
}

fn ascii_fold_exec(c: char) -> (r: char)
    ensures
        r == ascii_fold(c),
{
    if 'A' <= c && c <= 'Z' {
        ((c as u8) + 32) as char
    } else {
        c
    }
}

/// Whether a file extension is one of the wanted ones, ignoring ASCII case.
pub fn extension_matches(ext: &str, targets: &Vec<String>) -> (r: bool)
    ensures
        r == exists|k: int| 0 <= k < targets@.len() && eq_ignore_ascii_case(#[trigger] targets@[k]@, ext@),
{
    let e = chars_of(ext);
    let mut k: usize = 0;
    while k < targets.len()
        invariant
            k <= targets@.len(),
            e@ == ext@,
            forall|m: int| 0 <= m < k ==> !eq_ignore_ascii_case(#[trigger] targets@[m]@, ext@),
        decreases targets.len() - k,
    {
        let t = chars_of(targets[k].as_str());
        if t.len() == e.len() {
            let mut i: usize = 0;
            let mut same = true;
            while i < t.len()
                invariant
                    i <= t@.len() == e@.len(),
                    same == forall|m: int| 0 <= m < i ==> ascii_fold(#[trigger] t@[m]) == ascii_fold(e@[m]),
                decreases t.len() - i,
            {
                if ascii_fold_exec(t[i]) != ascii_fold_exec(e[i]) {
                    same = false;
                }
                i += 1;
            }
            if same {
                return true;
            }
        }
        k += 1;
    }
    false
}

/// The JSON key of an entry: its key, then `_` and its duplicate suffix when it has one, or
/// else `_` and its duplicate index when it has one.
pub open spec fn spec_json_key(e: crate::ast::SEntry) -> Seq<char> {
    match e.meta.duplicate_suffix {
        Some(s) => e.key + seq!['_'] + s,
        None => match e.meta.duplicate_index {
            Some(i) => e.key + seq!['_'] + decimal(i as nat),
            None => e.key,
        },
    }
}

/// The JSON key of an entry (see `spec_json_key`).
pub fn json_key(entry: &Entry) -> (r: String)
    ensures
        r@ == spec_json_key(view_entry(*entry)),
{
    let mut out = entry.key.clone();
    match &entry.metadata.duplicate_suffix {
        Some(s) => {
            out.append("_");
            out.append(s.as_str());
        },
        None => match entry.metadata.duplicate_index {
            Some(i) => {
                out.append("_");
                let d = decimal_exec(i);
                out.append(string_of(d.as_slice()).as_str());
            },
            None => {},
        },
    }
    proof {
        reveal_strlit("_");
    }
    out
}

/// `\r\n` written as `\n`.
pub open spec fn crlf_rules() -> Seq<(Seq<char>, Seq<char>)> {
    seq![(seq!['\r', '\n'], seq!['\n'])]
}

/// A text with each `\r\n` made `\n` (std's `str::replace`).
pub fn normalize_line_endings(text: &str) -> (r: String)
    ensures
        r@ == rewrite(text@, crlf_rules()),
{
    let cs = chars_of(text);
    let rules = vec![(vec!['\r', '\n'], vec!['\n'])];
    assert(rules_view(rules@) =~~= crlf_rules());
    let out = rewrite_exec(cs.as_slice(), &rules);
    string_of(out.as_slice())
}

/// The key a compared file is listed under: its path relative to the root, with `/` for `\`,
/// under `common/` when the root has no `common`, `events` or `history` directory.
pub open spec fn spec_relative_key(relative: Seq<char>, structured: bool) -> Seq<char> {
    let r = relative.map_values(|c: char| if c == '\\' { '/' } else { c });
    if structured {
        r
    } else {
        "common/"@ + r
    }
}

/// The key a compared file is listed under (see `spec_relative_key`).
pub fn relative_key(relative: &str, structured: bool) -> (r: String)
    ensures
        r@ == spec_relative_key(relative@, structured),
{
    let cs = chars_of(relative);
    let mut out: Vec<char> = Vec::new();
    let mut i: usize = 0;
    while i < cs.len()
        invariant
            i <= cs@.len(),
            out@ == cs@.take(i as int).map_values(|c: char| if c == '\\' { '/' } else { c }),
        decreases cs.len() - i,
    {
        let c = cs[i];
        out.push(if c == '\\' { '/' } else { c });
        assert(cs@.take(i + 1).map_values(|c: char| if c == '\\' { '/' } else { c }) =~= cs@.take(
            i as int,
        ).map_values(|c: char| if c == '\\' { '/' } else { c }).push(if c == '\\' { '/' } else { c }));
        i += 1;
    }
    assert(cs@.take(cs@.len() as int) =~= cs@);
    let body = string_of(out.as_slice());
    if structured {
        body
    } else {
        let mut r = "common/".to_owned();
        r.append(body.as_str());
        r
    }
}

/// The first index below both lengths where the lines differ, from `i` on.
pub open spec fn first_diff_index(l: Seq<Seq<char>>, r: Seq<Seq<char>>, i: int) -> Option<int>
    decreases l.len() - i,
{
    if i < 0 || i >= l.len() || i >= r.len() {
        None
    } else if l[i] != r[i] {
        Some(i)
    } else {
        first_diff_index(l, r, i + 1)
    }
}

/// The report on two differing texts: the first differing line, else the differing line
/// counts, else a note that no line differs.
pub open spec fn spec_first_diff_line(left: Seq<char>, right: Seq<char>) -> Seq<char> {
    let l = lines(left);
    let r = lines(right);
    match first_diff_index(l, r, 0) {
        Some(i) => "第 "@ + decimal((i + 1) as nat) + " 行不同 | 左: "@ + debug_text(l[i]) + " | 右: "@
            + debug_text(r[i]),
        None => if l.len() != r.len() {
            "行数不同 | 左: "@ + decimal(l.len()) + " 行 | 右: "@ + decimal(r.len()) + " 行"@
        } else {
            "存在差异(未定位到首个不同行)"@
        },
    }
}

/// Whether two character slices are equal.
fn same_chars(a: &[char], b: &[char]) -> (r: bool)
    ensures
        r == (a@ == b@),
{
    if a.len() != b.len() {
        return false;
    }
    let mut i: usize = 0;
    while i < a.len()
        invariant
            i <= a@.len() == b@.len(),
            forall|k: int| 0 <= k < i ==> a@[k] == b@[k],
        decreases a.len() - i,
    {
        if a[i] != b[i] {
            return false;
        }
        i += 1;
    }
    assert(a@ =~= b@);
    true
}

/// Describes where two texts first differ (see `spec_first_diff_line`).
pub fn first_diff_line(left: &str, right: &str) -> (r: String)
    ensures
        r@ == spec_first_diff_line(left@, right@),
{
    let lc = chars_of(left);
    let rc = chars_of(right);
    let ll = split_lines(lc.as_slice());
    let rl = split_lines(rc.as_slice());
    let ghost vl = views(ll@);
    let ghost vr = views(rl@);
    assert(vl == lines(left@));
    assert(vr == lines(right@));
    let mut idx: usize = 0;
    while idx < ll.len() && idx < rl.len()
        invariant
            idx <= ll@.len(),
            idx <= rl@.len(),
            vl == views(ll@),
            vr == views(rl@),
            vl == lines(left@),
            vr == lines(right@),
            first_diff_index(vl, vr, 0) == first_diff_index(vl, vr, idx as int),
        decreases ll.len() - idx,
    {
        assert(vl[idx as int] == ll@[idx as int]@);
        assert(vr[idx as int] == rl@[idx as int]@);
        if !same_chars(ll[idx].as_slice(), rl[idx].as_slice()) {
            let mut m = "第 ".to_owned();
            let n = decimal_exec(idx + 1);
            m.append(string_of(n.as_slice()).as_str());
            m.append(" 行不同 | 左: ");
            m.append(debug_str(ll[idx].as_slice()).as_str());
            m.append(" | 右: ");
            m.append(debug_str(rl[idx].as_slice()).as_str());
            return m;
        }
        idx += 1;
    }
    if ll.len() != rl.len() {
        let mut m = "行数不同 | 左: ".to_owned();
        let a = decimal_exec(ll.len());
        m.append(string_of(a.as_slice()).as_str());
        m.append(" 行 | 右: ");
        let b = decimal_exec(rl.len());
        m.append(string_of(b.as_slice()).as_str());
        m.append(" 行");
        return m;
    }
    "存在差异(未定位到首个不同行)".to_owned()
}


/// Where `target` first stands in `args` from `i` on.
pub open spec fn find_arg(args: Seq<Seq<char>>, target: Seq<char>, i: int) -> Option<int>
    decreases args.len() - i,
{
    if i < 0 || i >= args.len() {
        None
    } else if args[i] == target {
        Some(i)
    } else {
        find_arg(args, target, i + 1)
    }
}

pub open spec fn string_views(args: Seq<String>) -> Seq<Seq<char>> {
    args.map_values(|a: String| a@)
}

/// The mode asked for by `--mode script` or `--mode loc`; none without `--mode`; an error
/// when `--mode` has no value or an unknown one.
pub open spec fn spec_parse_mode_arg(args: Seq<Seq<char>>) -> Result<Option<Mode>, Seq<char>> {
    match find_arg(args, "--mode"@, 0) {
        None => Ok(None),
        Some(i) => if i + 1 >= args.len() {
            Err("--mode 需要参数"@)
        } else if args[i + 1] == "script"@ {
            Ok(Some(Mode::Script))
        } else if args[i + 1] == "loc"@ {
            Ok(Some(Mode::Loc))
        } else {
            Err("未知 --mode "@ + args[i + 1] + "（支持 script | loc）"@)
        },
    }
}

/// Where `target` first stands among the arguments from `i` on (see `find_arg`).
fn find_arg_exec(args: &[String], target: &str, i: usize) -> (r: Option<usize>)
    requires
        i <= args@.len(),
    ensures
        match r {
            Some(k) => find_arg(string_views(args@), target@, i as int) == Some(k as int) && k
                < args@.len(),
            None => find_arg(string_views(args@), target@, i as int) is None,
        },
{
    let ghost va = string_views(args@);
    let t = chars_of(target);
    let mut k = i;
    while k < args.len()
        invariant
            i <= k <= args@.len(),
            va == string_views(args@),
            t@ == target@,
            find_arg(va, target@, i as int) == find_arg(va, target@, k as int),
        decreases args.len() - k,
    {
        let a = chars_of(args[k].as_str());
        assert(va[k as int] == args@[k as int]@);
        if same_chars(a.as_slice(), t.as_slice()) {
            return Some(k);
        }
        k += 1;
    }
    None
}

/// Reads `--mode` from the arguments (see `spec_parse_mode_arg`).
pub fn parse_mode_arg(args: &[String]) -> (r: Result<Option<Mode>, String>)
    ensures
        match r {
            Ok(m) => spec_parse_mode_arg(string_views(args@)) == Ok::<Option<Mode>, Seq<char>>(m),
            Err(e) => spec_parse_mode_arg(string_views(args@)) == Err::<Option<Mode>, Seq<char>>(e@),
        },
{
    let ghost va = string_views(args@);
    match find_arg_exec(args, "--mode", 0) {
        None => Ok(None),
        Some(i) => {
            let n = args.len();
            if i + 1 >= n {
                return Err("--mode 需要参数".to_owned());
            }
            assert(va[i + 1] == args@[i + 1]@);
            let v = chars_of(args[i + 1].as_str());
            let script = chars_of("script");
            let loc = chars_of("loc");
            if same_chars(v.as_slice(), script.as_slice()) {
                Ok(Some(Mode::Script))
            } else if same_chars(v.as_slice(), loc.as_slice()) {
                Ok(Some(Mode::Loc))
            } else {
                let mut m = "未知 --mode ".to_owned();
                m.append(args[i + 1].as_str());
                m.append("（支持 script | loc）");
                Err(m)
            }
        },
    }
}

/// The extensions a mode reads when none are given: `txt` and `gfx` for script, `yml` for
/// localisation.
pub open spec fn spec_default_exts(mode: Mode) -> Seq<Seq<char>> {
    match mode {
        Mode::Script => seq!["txt"@, "gfx"@],
        Mode::Loc => seq!["yml"@],
    }
}

/// The extensions a mode reads when none are given (see `spec_default_exts`).
pub fn default_exts(mode: Mode) -> (r: Vec<String>)
    ensures
        string_views(r@) == spec_default_exts(mode),
{
    let mut r: Vec<String> = Vec::new();
    match mode {
        Mode::Script => {
            r.push("txt".to_owned());
            r.push("gfx".to_owned());
        },
        Mode::Loc => {
            r.push("yml".to_owned());
        },
    }
    assert(string_views(r@) =~= spec_default_exts(mode));
    r
}

/// The state of splitting at commas: the finished parts and the part being read.
pub struct CommaState {
    pub parts: Seq<Seq<char>>,
    pub current: Seq<char>,
}

pub open spec fn comma_fold(s: Seq<char>) -> CommaState
    decreases s.len(),
{
    if s.len() == 0 {
        CommaState { parts: seq![], current: seq![] }
    } else {
        let st = comma_fold(s.drop_last());
        if s.last() == ',' {
            CommaState { parts: st.parts.push(st.current), current: seq![] }
        } else {
            CommaState { current: st.current.push(s.last()), ..st }
        }
    }
}

/// The parts of `s` between commas, empty ones included (std's `str::split(',')`).
pub open spec fn split_commas(s: Seq<char>) -> Seq<Seq<char>> {
    comma_fold(s).parts.push(comma_fold(s).current)
}

/// std's `str::to_lowercase`; its result is named `unicode_lowercase`.
pub uninterp spec fn unicode_lowercase(s: Seq<char>) -> Seq<char>;

/// std's `str::to_lowercase` on the text held in `s`.
#[verifier::external_body]
fn lowercase(s: &[char]) -> (r: String)
    ensures
        r@ == unicode_lowercase(s@),
{
    let text: String = s.iter().collect();
    text.to_lowercase()
}

/// An extension as given: trimmed, without leading dots, in lower case.
pub open spec fn clean_ext(p: Seq<char>) -> Seq<char> {
    unicode_lowercase(trim_start_char(trim(p), '.'))
}

/// The cleaned extensions that are not empty.
pub open spec fn clean_exts(parts: Seq<Seq<char>>) -> Seq<Seq<char>>
    decreases parts.len(),
{
    if parts.len() == 0 {
        seq![]
    } else if clean_ext(parts.last()).len() > 0 {
        clean_exts(parts.drop_last()).push(clean_ext(parts.last()))
    } else {
        clean_exts(parts.drop_last())
    }
}

/// The extensions given by `--ext a,b`: none without `--ext` or without its value.
pub open spec fn spec_parse_ext_arg(args: Seq<Seq<char>>) -> Option<Seq<Seq<char>>> {
    match find_arg(args, "--ext"@, 0) {
        None => None,
        Some(i) => if i + 1 >= args.len() {
            None
        } else {
            Some(clean_exts(split_commas(args[i + 1])))
        },
    }
}

/// Reads `--ext` from the arguments (see `spec_parse_ext_arg`).
pub fn parse_ext_arg(args: &[String]) -> (r: Option<Vec<String>>)
    ensures
        match r {
            Some(v) => spec_parse_ext_arg(string_views(args@)) == Some(string_views(v@)),
            None => spec_parse_ext_arg(string_views(args@)) is None,
        },
{
    let ghost va = string_views(args@);
    let i = match find_arg_exec(args, "--ext", 0) {
        None => {
            return None;
        },
        Some(i) => i,
    };
    let n = args.len();
    if i + 1 >= n {
        return None;
    }
    assert(va[i + 1] == args@[i + 1]@);
    let v = chars_of(args[i + 1].as_str());
    let mut parts: Vec<Vec<char>> = Vec::new();
    let mut cur: Vec<char> = Vec::new();
    let mut k: usize = 0;
    while k < v.len()
        invariant
            k <= v@.len(),
            comma_fold(v@.take(k as int)).parts == views(parts@),
            comma_fold(v@.take(k as int)).current == cur@,
        decreases v.len() - k,
    {
        assert(v@.take(k + 1).drop_last() =~= v@.take(k as int));
        if v[k] == ',' {
            let ghost before = parts@;
            let ghost cv = cur@;
            parts.push(cur);
            cur = Vec::new();
            assert(views(parts@) =~= views(before).push(cv));
            assert(cur@ =~= Seq::<char>::empty());
        } else {
            cur.push(v[k]);
        }
        k += 1;
    }
    assert(v@.take(v@.len() as int) =~= v@);
    let ghost before = parts@;
    let ghost cv = cur@;
    parts.push(cur);
    assert(views(parts@) =~= views(before).push(cv));
    let ghost vp = views(parts@);
    let mut out: Vec<String> = Vec::new();
    let mut j: usize = 0;
    assert(vp.take(0) =~= Seq::<Seq<char>>::empty());
    while j < parts.len()
        invariant
            j <= parts@.len(),
            vp == views(parts@),
            string_views(out@) == clean_exts(vp.take(j as int)),
        decreases parts.len() - j,
    {
        assert(vp.take(j + 1).drop_last() =~= vp.take(j as int));
        assert(vp[j as int] == parts@[j as int]@);
        let p = &parts[j];
        let (a, b) = trim_bounds(p.as_slice(), 0, p.len());
        assert(p@.subrange(0, p@.len() as int) =~= p@);
        let mut c = a;
        while c < b && p[c] == '.'
            invariant
                a <= c <= b <= p@.len(),
                trim_start_char(p@.subrange(a as int, b as int), '.') == trim_start_char(
                    p@.subrange(c as int, b as int),
                    '.',
                ),
            decreases b - c,
        {
            assert(p@.subrange(c as int, b as int).skip(1) =~= p@.subrange(c + 1, b as int));
            c += 1;
        }
        assert(trim_start_char(p@.subrange(c as int, b as int), '.') == p@.subrange(
            c as int,
            b as int,
        ));
        let core = chars_range(p.as_slice(), c, b);
        let low = lowercase(core.as_slice());
        if !low.as_str().is_empty() {
            let ghost before = out@;
            let ghost lv = low@;
            out.push(low);
            assert(string_views(out@) =~= string_views(before).push(lv));
        }
        j += 1;
    }
    assert(vp.take(parts@.len() as int) =~= vp);
    Some(out)
}

/// How one file compares across the two directories.
pub enum FileOutcome {
    Same,
    OnlyLeft(String),
    OnlyRight(String),
    Diff { relative: String, detail: String },
}

/// The model of a file's outcome.
pub enum SOutcome {
    Same,
    OnlyLeft(Seq<char>),
    OnlyRight(Seq<char>),
    Diff(Seq<char>, Seq<char>),
}

pub open spec fn view_outcome(o: FileOutcome) -> SOutcome {
    match o {
        FileOutcome::Same => SOutcome::Same,
        FileOutcome::OnlyLeft(r) => SOutcome::OnlyLeft(r@),
        FileOutcome::OnlyRight(r) => SOutcome::OnlyRight(r@),
        FileOutcome::Diff { relative, detail } => SOutcome::Diff(relative@, detail@),
    }
}

/// The tally of a comparison: how many files agree, and (in the order they came) the files
/// that differ with their first differing line, and those found on one side only.
pub struct CompareTally {
    pub same: usize,
    pub diff: Vec<(String, String)>,
    pub only_left: Vec<String>,
    pub only_right: Vec<String>,
}

/// The model of a tally.
pub struct STally {
    pub same: nat,
    pub diff: Seq<(Seq<char>, Seq<char>)>,
    pub only_left: Seq<Seq<char>>,
    pub only_right: Seq<Seq<char>>,
}

/// The tally of the outcomes, in their order.
pub open spec fn spec_tally(os: Seq<SOutcome>) -> STally
    decreases os.len(),
{
    if os.len() == 0 {
        STally { same: 0, diff: seq![], only_left: seq![], only_right: seq![] }
    } else {
        let t = spec_tally(os.drop_last());
        match os.last() {
            SOutcome::Same => STally { same: t.same + 1, ..t },
            SOutcome::OnlyLeft(r) => STally { only_left: t.only_left.push(r), ..t },
            SOutcome::OnlyRight(r) => STally { only_right: t.only_right.push(r), ..t },
            SOutcome::Diff(r, d) => STally { diff: t.diff.push((r, d)), ..t },
        }
    }
}

pub open spec fn view_tally(t: CompareTally) -> STally {
    STally {
        same: t.same as nat,
        diff: t.diff@.map_values(|p: (String, String)| (p.0@, p.1@)),
        only_left: t.only_left@.map_values(|r: String| r@),
        only_right: t.only_right@.map_values(|r: String| r@),
    }
}

/// How many examples of each kind a comparison report lists.
pub const EXAMPLE_LIMIT: usize = 20;

/// Tallies the outcomes of a comparison: files that agree are counted; the others are kept,
/// in the order they came, as differing (with the first differing line) or found on one side
/// only.
pub fn tally_outcomes(outcomes: &Vec<FileOutcome>) -> (r: CompareTally)
    ensures
        view_tally(r) == spec_tally(outcomes@.map_values(|o: FileOutcome| view_outcome(o))),
{
    let ghost vs = outcomes@.map_values(|o: FileOutcome| view_outcome(o));
    let mut r = CompareTally { same: 0, diff: Vec::new(), only_left: Vec::new(), only_right: Vec::new() };
    let mut i: usize = 0;
    proof {
        assert(vs.take(0) =~= Seq::<SOutcome>::empty());
        assert(view_tally(r).diff =~= Seq::<(Seq<char>, Seq<char>)>::empty());
        assert(view_tally(r).only_left =~= Seq::<Seq<char>>::empty());
        assert(view_tally(r).only_right =~= Seq::<Seq<char>>::empty());
    }
    while i < outcomes.len()
        invariant
            i <= outcomes.len(),
            vs == outcomes@.map_values(|o: FileOutcome| view_outcome(o)),
            view_tally(r) == spec_tally(vs.take(i as int)),
            r.same <= i,
        decreases outcomes.len() - i,
    {
        let ghost before = r;
        proof {
            assert(vs.take(i + 1).drop_last() =~= vs.take(i as int));
            assert(vs.take(i + 1).last() == view_outcome(outcomes@[i as int]));
        }
        match &outcomes[i] {
            FileOutcome::Same => {
                r.same = r.same + 1;
            },
            FileOutcome::OnlyLeft(rel) => {
                r.only_left.push(rel.clone());
                proof {
                    assert(view_tally(r).only_left =~= view_tally(before).only_left.push(rel@));
                }
            },
            FileOutcome::OnlyRight(rel) => {
                r.only_right.push(rel.clone());
                proof {
                    assert(view_tally(r).only_right =~= view_tally(before).only_right.push(rel@));
                }
            },
            FileOutcome::Diff { relative, detail } => {
                r.diff.push((relative.clone(), detail.clone()));
                proof {
                    assert(view_tally(r).diff =~= view_tally(before).diff.push((relative@, detail@)));
                }
            },
        }
        i = i + 1;
    }
    proof {
        assert(vs.take(outcomes.len() as int) =~= vs);
    }
    r
}

} // verus!

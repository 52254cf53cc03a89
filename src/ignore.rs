//! Ignore rules: which working-tree paths `add` and `status` skip.

use vstd::prelude::*;
use vstd::string::StrSliceExecFns;

verus! {

/// Whether `text` matches the glob `pattern`; `None` when the pattern does
/// not compile.
pub uninterp spec fn glob_match(pattern: Seq<char>, text: Seq<char>) -> Option<bool>;

/// Relies on `glob::Pattern::new` to compile the pattern (failing on a
/// malformed one) and on `glob::Pattern::matches` with default options.
#[verifier::external_body]
fn glob_matches(pattern: &str, text: &str) -> (r: Option<bool>)
    ensures
        r == glob_match(pattern@, text@),
{
    match glob::Pattern::new(pattern) {
        Ok(p) => Some(p.matches(text)),
        Err(_) => None,
    }
}

/// Unicode whitespace (the `White_Space` property).
pub open spec fn is_ws(c: char) -> bool {
    ('\t' <= c <= '\r') || c == ' ' || c == '\u{85}' || c == '\u{A0}' || c == '\u{1680}' || (
    '\u{2000}' <= c <= '\u{200A}') || c == '\u{2028}' || c == '\u{2029}' || c == '\u{202F}' || c
        == '\u{205F}' || c == '\u{3000}'
}

pub open spec fn ctrim_start(s: Seq<char>) -> Seq<char>
    decreases s.len(),
{
    if s.len() > 0 && is_ws(s[0]) {
        ctrim_start(s.drop_first())
    } else {
        s
    }
}

pub open spec fn ctrim_end(s: Seq<char>) -> Seq<char>
    decreases s.len(),
{
    if s.len() > 0 && is_ws(s.last()) {
        ctrim_end(s.drop_last())
    } else {
        s
    }
}

/// `s` without leading or trailing whitespace.
pub open spec fn ctrim(s: Seq<char>) -> Seq<char> {
    ctrim_end(ctrim_start(s))
}

/// `s` without any leading `./`.
pub open spec fn strip_dot_slash(s: Seq<char>) -> Seq<char>
    decreases s.len(),
{
    if s.len() >= 2 && s[0] == '.' && s[1] == '/' {
        strip_dot_slash(s.subrange(2, s.len() as int))
    } else {
        s
    }
}

/// Whether `p` is `dir` or lies inside it.
pub open spec fn under_dir(p: Seq<char>, dir: Seq<char>) -> bool {
    p.len() >= dir.len() && p.subrange(0, dir.len() as int) == dir && (p.len() == dir.len()
        || p[dir.len() as int] == '/' || p[dir.len() as int] == '\\')
}

/// Whether the trimmed pattern `pat` ignores the path `rel` (relative to the
/// repository root) whose last component is `name`: `dir/` ignores what lies
/// in `dir`; a pattern with `*` is a glob tried on the name and on the path;
/// any other pattern is an exact path. Empty patterns and `#` comments
/// ignore nothing.
pub open spec fn pattern_hits(pat: Seq<char>, rel: Seq<char>, name: Seq<char>) -> bool {
    let norm = strip_dot_slash(rel);
    if pat.len() == 0 || pat[0] == '#' {
        false
    } else if pat.last() == '/' {
        under_dir(norm, pat.subrange(0, pat.len() - 1))
    } else if pat.contains('*') {
        glob_match(pat, name) == Some(true) || glob_match(pat, norm) == Some(true)
    } else {
        norm == pat || rel == pat
    }
}

/// The metadata directory, `.rit`, and everything in it.
pub open spec fn in_metadata(rel: Seq<char>) -> bool {
    rel == seq!['.', 'r', 'i', 't'] || (rel.len() > 4 && rel.subrange(0, 5) == seq!['.', 'r', 'i', 't', '/'])
}

/// Whether the path is ignored by the metadata rule or by some pattern.
pub open spec fn ignored(rel: Seq<char>, name: Seq<char>, pats: Seq<Seq<char>>) -> bool {
    in_metadata(rel) || exists|i: int| 0 <= i < pats.len() && pattern_hits(ctrim(#[trigger] pats[i]), rel, name)
}

fn is_ws_char(c: char) -> (r: bool)
    ensures
        r == is_ws(c),
{
    ('\t' <= c && c <= '\r') || c == ' ' || c == '\u{85}' || c == '\u{A0}' || c == '\u{1680}' || (
    '\u{2000}' <= c && c <= '\u{200A}') || c == '\u{2028}' || c == '\u{2029}' || c == '\u{202F}'
        || c == '\u{205F}' || c == '\u{3000}'
}

fn trim_str(s: &str) -> (r: &str)
    ensures
        r@ == ctrim(s@),
{
    let n = s.unicode_len();
    let mut a: usize = 0;
    assert(s@.subrange(0, s@.len() as int) =~= s@);
    while a < n && is_ws_char(s.get_char(a))
        invariant
            n == s@.len(),
            a <= n,
            ctrim_start(s@.subrange(a as int, n as int)) == ctrim_start(s@),
        decreases n - a,
    {
        assert(s@.subrange(a as int, n as int).drop_first() =~= s@.subrange(a + 1, n as int));
        a = a + 1;
    }
    let mut b: usize = n;
    while b > a && is_ws_char(s.get_char(b - 1))
        invariant
            n == s@.len(),
            a <= b <= n,
            ctrim_start(s@.subrange(a as int, n as int)) == ctrim_start(s@),
            ctrim_end(s@.subrange(a as int, b as int)) == ctrim(s@),
        decreases b - a,
    {
        assert(s@.subrange(a as int, b as int).drop_last() =~= s@.subrange(a as int, b - 1));
        b = b - 1;
    }
    s.substring_char(a, b)
}

fn str_eq(x: &str, y: &str) -> (r: bool)
    ensures
        r == (x@ == y@),
{
    let n = x.unicode_len();
    if n != y.unicode_len() {
        return false;
    }
    let mut i: usize = 0;
    while i < n
        invariant
            n == x@.len(),
            n == y@.len(),
            i <= n,
            forall|j: int| 0 <= j < i ==> x@[j] == y@[j],
        decreases n - i,
    {
        if x.get_char(i) != y.get_char(i) {
            return false;
        }
        i = i + 1;
    }
    assert(x@ =~= y@);
    true
}

fn strip_prefix_dot_slash(s: &str) -> (r: &str)
    ensures
        r@ == strip_dot_slash(s@),
{
    let mut cur = s;
    while cur.unicode_len() >= 2 && cur.get_char(0) == '.' && cur.get_char(1) == '/'
        invariant
            strip_dot_slash(cur@) == strip_dot_slash(s@),
        decreases cur@.len(),
    {
        let n = cur.unicode_len();
        cur = cur.substring_char(2, n);
    }
    cur
}

fn has_star(s: &str) -> (r: bool)
    ensures
        r == s@.contains('*'),
{
    let n = s.unicode_len();
    let mut i: usize = 0;
    while i < n
        invariant
            n == s@.len(),
            i <= n,
            forall|j: int| 0 <= j < i ==> s@[j] != '*',
        decreases n - i,
    {
        if s.get_char(i) == '*' {
            assert(s@[i as int] == '*');
            return true;
        }
        i = i + 1;
    }
    false
}

fn dir_hit(p: &str, dir: &str) -> (r: bool)
    ensures
        r == under_dir(p@, dir@),
{
    let n = p.unicode_len();
    let d = dir.unicode_len();
    if n < d {
        return false;
    }
    if !str_eq(p.substring_char(0, d), dir) {
        return false;
    }
    if n == d {
        return true;
    }
    let c = p.get_char(d);
    c == '/' || c == '\\'
}

fn in_metadata_dir(rel: &str) -> (r: bool)
    ensures
        r == in_metadata(rel@),
{
    let n = rel.unicode_len();
    if n < 4 {
        return false;
    }
    let head = rel.get_char(0) == '.' && rel.get_char(1) == 'r' && rel.get_char(2) == 'i' && rel.get_char(3) == 't';
    if !head {
        assert(rel@ != seq!['.', 'r', 'i', 't']);
        assert(!(rel@.len() > 4 && rel@.subrange(0, 5) == seq!['.', 'r', 'i', 't', '/'])) by {
            if rel@.len() > 4 && rel@.subrange(0, 5) == seq!['.', 'r', 'i', 't', '/'] {
                assert(rel@.subrange(0, 5)[0] == rel@[0]);
                assert(rel@.subrange(0, 5)[1] == rel@[1]);
                assert(rel@.subrange(0, 5)[2] == rel@[2]);
                assert(rel@.subrange(0, 5)[3] == rel@[3]);
            }
        }
        return false;
    }
    if n == 4 {
        assert(rel@ =~= seq!['.', 'r', 'i', 't']);
        return true;
    }
    let r = rel.get_char(4) == '/';
    assert(rel@ != seq!['.', 'r', 'i', 't']) by {
        assert(rel@.len() != 4);
    }
    if r {
        assert(rel@.subrange(0, 5) =~= seq!['.', 'r', 'i', 't', '/']);
    } else {
        assert(rel@.subrange(0, 5)[4] == rel@[4]);
    }
    r
}

/// Whether one pattern, trimmed, ignores the path.
pub fn pattern_ignores(pattern: &str, rel: &str, name: &str) -> (r: bool)
    ensures
        r == pattern_hits(ctrim(pattern@), rel@, name@),
{
    let pat = trim_str(pattern);
    let n = pat.unicode_len();
    if n == 0 || pat.get_char(0) == '#' {
        return false;
    }
    let norm = strip_prefix_dot_slash(rel);
    if pat.get_char(n - 1) == '/' {
        return dir_hit(norm, pat.substring_char(0, n - 1));
    }
    if has_star(pat) {
        return glob_matches(pat, name) == Some(true) || glob_matches(pat, norm) == Some(true);
    }
    str_eq(norm, pat) || str_eq(rel, pat)
}

/// Whether the path `rel` (relative to the repository root, last component
/// `name`) is ignored: it is the metadata directory or inside it, or some
/// pattern ignores it.
pub fn is_ignored(rel: &str, name: &str, patterns: &Vec<String>) -> (r: bool)
    ensures
        r == ignored(rel@, name@, patterns@.map_values(|p: String| p@)),
{
    let ghost pv = patterns@.map_values(|p: String| p@);
    if in_metadata_dir(rel) {
        return true;
    }
    let mut i: usize = 0;
    while i < patterns.len()
        invariant
            i <= patterns@.len(),
            pv == patterns@.map_values(|p: String| p@),
            forall|j: int| 0 <= j < i ==> !pattern_hits(ctrim(#[trigger] pv[j]), rel@, name@),
        decreases patterns@.len() - i,
    {
        assert(pv[i as int] == patterns@[i as int]@);
        if pattern_ignores(patterns[i].as_str(), rel, name) {
            return true;
        }
        i = i + 1;
    }
    false
}

/// The first position at or after `from` that holds `c`, or the length.
pub open spec fn cfind(s: Seq<char>, c: char, from: int) -> int
    decreases s.len() - from,
{
    if from >= s.len() {
        s.len() as int
    } else if s[from] == c {
        from
    } else {
        cfind(s, c, from + 1)
    }
}

proof fn lemma_cfind_bounds(s: Seq<char>, c: char, from: int)
    requires
        0 <= from <= s.len(),
    ensures
        from <= cfind(s, c, from) <= s.len(),
    decreases s.len() - from,
{
    if from < s.len() && s[from] != c {
        lemma_cfind_bounds(s, c, from + 1);
    }
}

/// Whether a trimmed line of the ignore file is a pattern: not empty, not a
/// `#` comment.
pub open spec fn is_pattern_line(l: Seq<char>) -> bool {
    l.len() > 0 && l[0] != '#'
}

/// The patterns of the ignore file's lines from position `from` on: each
/// line trimmed, empty lines and comments dropped.
pub open spec fn patterns_from(s: Seq<char>, from: int) -> Seq<Seq<char>>
    decreases s.len() - from,
{
    if from < 0 || from >= s.len() {
        Seq::empty()
    } else {
        let e = cfind(s, '\n', from);
        let l = ctrim(s.subrange(from, e));
        let here = if is_pattern_line(l) { seq![l] } else { Seq::empty() };
        if from <= e < s.len() {
            here + patterns_from(s, e + 1)
        } else {
            here
        }
    }
}

/// The patterns of an ignore file.
pub fn parse_ignore(text: &str) -> (r: Vec<String>)
    ensures
        r@.map_values(|p: String| p@) == patterns_from(text@, 0),
{
    let n = text.unicode_len();
    let mut out: Vec<String> = Vec::new();
    let mut pos: usize = 0;
    assert(out@.map_values(|p: String| p@) =~= Seq::<Seq<char>>::empty());
    while pos < n
        invariant
            n == text@.len(),
            pos <= n,
            out@.map_values(|p: String| p@) + patterns_from(text@, pos as int) == patterns_from(text@, 0),
        decreases n - pos,
    {
        let mut e: usize = pos;
        proof {
            lemma_cfind_bounds(text@, '\n', pos as int);
        }
        while e < n && text.get_char(e) != '\n'
            invariant
                n == text@.len(),
                pos <= e <= n,
                cfind(text@, '\n', e as int) == cfind(text@, '\n', pos as int),
            decreases n - e,
        {
            e = e + 1;
        }
        let line = trim_str(text.substring_char(pos, e));
        let ghost before = out@.map_values(|p: String| p@);
        if line.unicode_len() > 0 && line.get_char(0) != '#' {
            out.push(line.to_owned());
            assert(out@.map_values(|p: String| p@) =~= before + seq![line@]);
        } else {
            assert(out@.map_values(|p: String| p@) =~= before + Seq::<Seq<char>>::empty());
        }
        if e < n {
            pos = e + 1;
        } else {
            pos = e;
            assert(patterns_from(text@, pos as int) =~= Seq::<Seq<char>>::empty());
        }
        assert(out@.map_values(|p: String| p@) + patterns_from(text@, pos as int) == patterns_from(text@, 0));
    }
    assert(out@.map_values(|p: String| p@) + Seq::<Seq<char>>::empty() =~= out@.map_values(|p: String| p@));
    out
}

} // verus!

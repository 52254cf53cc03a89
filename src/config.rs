//! The user configuration: an ini-style file of `[section]` headers and
//! `key = value` lines, read into full keys `section.key`.

use crate::codec::{bytes_eq, copy_range, find_byte, find_from, lemma_find_from_shift, push_all};
use vstd::prelude::*;

verus! {

/// A configuration entry: full key and value.
pub type PairView = (Seq<u8>, Seq<u8>);

/// ASCII whitespace, as trimmed from lines, keys and values.
pub open spec fn is_space(c: u8) -> bool {
    c == 32 || (9 <= c <= 13)
}

/// `s` without leading whitespace.
pub open spec fn trim_start(s: Seq<u8>) -> Seq<u8>
    decreases s.len(),
{
    if s.len() > 0 && is_space(s[0]) {
        trim_start(s.drop_first())
    } else {
        s
    }
}

/// `s` without trailing whitespace.
pub open spec fn trim_end(s: Seq<u8>) -> Seq<u8>
    decreases s.len(),
{
    if s.len() > 0 && is_space(s.last()) {
        trim_end(s.drop_last())
    } else {
        s
    }
}

/// `s` without leading or trailing whitespace.
pub open spec fn trim(s: Seq<u8>) -> Seq<u8> {
    trim_end(trim_start(s))
}

/// The value stored under `k`, the last one if several are.
pub open spec fn lookup(s: Seq<PairView>, k: Seq<u8>) -> Option<Seq<u8>>
    decreases s.len(),
{
    if s.len() == 0 {
        None
    } else if s.last().0 == k {
        Some(s.last().1)
    } else {
        lookup(s.drop_last(), k)
    }
}

/// The reader's state after one line: a `[name]` line opens a section, a
/// line holding `=` adds the pair `section.key = value`, anything else is
/// ignored.
pub open spec fn config_step(state: (Seq<u8>, Seq<PairView>), raw: Seq<u8>) -> (Seq<u8>, Seq<PairView>) {
    let line = trim(raw);
    if line.len() >= 2 && line[0] == 91 && line.last() == 93 {
        (line.subrange(1, line.len() - 1), state.1)
    } else {
        let eq = find_from(line, 61, 0);
        if 0 <= eq < line.len() {
            let key = state.0 + seq![46u8] + trim(line.subrange(0, eq));
            let value = trim(line.subrange(eq + 1, line.len() as int));
            (state.0, state.1.push((key, value)))
        } else {
            state
        }
    }
}

/// The reader's state after every line of `text`.
pub open spec fn config_from(state: (Seq<u8>, Seq<PairView>), text: Seq<u8>) -> (Seq<u8>, Seq<PairView>)
    decreases text.len(),
{
    if text.len() == 0 {
        state
    } else {
        let p = find_from(text, 10, 0);
        let next = config_step(state, text.subrange(0, p));
        if 0 <= p < text.len() {
            config_from(next, text.subrange(p + 1, text.len() as int))
        } else {
            next
        }
    }
}

/// The pairs read from a configuration file.
pub open spec fn parse_config_spec(text: Seq<u8>) -> Seq<PairView> {
    config_from((Seq::empty(), Seq::empty()), text).1
}

/// A parsed configuration.
pub struct Config {
    pairs: Vec<(Vec<u8>, Vec<u8>)>,
}

impl View for Config {
    type V = Seq<PairView>;

    closed spec fn view(&self) -> Seq<PairView> {
        self.pairs@.map_values(|p: (Vec<u8>, Vec<u8>)| (p.0@, p.1@))
    }
}

/// `s` without leading or trailing ASCII whitespace.
pub fn trim_bytes(s: &[u8]) -> (r: Vec<u8>)
    ensures
        r@ == trim(s@),
{
    let mut a: usize = 0;
    assert(s@.subrange(0, s@.len() as int) =~= s@);
    while a < s.len() && (s[a] == 32 || (9 <= s[a] && s[a] <= 13))
        invariant
            a <= s@.len(),
            trim_start(s@.subrange(a as int, s@.len() as int)) == trim_start(s@),
        decreases s@.len() - a,
    {
        assert(s@.subrange(a as int, s@.len() as int).drop_first() =~= s@.subrange(
            a + 1,
            s@.len() as int,
        ));
        a = a + 1;
    }
    let ghost ts = s@.subrange(a as int, s@.len() as int);
    assert(trim_start(ts) == ts);
    let mut b: usize = s.len();
    while b > a && (s[b - 1] == 32 || (9 <= s[b - 1] && s[b - 1] <= 13))
        invariant
            a <= b <= s@.len(),
            trim_end(s@.subrange(a as int, b as int)) == trim(s@),
        decreases b - a,
    {
        assert(s@.subrange(a as int, b as int).drop_last() =~= s@.subrange(a as int, b - 1));
        b = b - 1;
    }
    copy_range(s, a, b)
}

/// Reads a configuration file.
pub fn parse_config(text: &[u8]) -> (r: Config)
    ensures
        r@ == parse_config_spec(text@),
{
    let mut section: Vec<u8> = Vec::new();
    let mut pairs: Vec<(Vec<u8>, Vec<u8>)> = Vec::new();
    let mut pos: usize = 0;
    let ghost view_of = |ps: Seq<(Vec<u8>, Vec<u8>)>| ps.map_values(|p: (Vec<u8>, Vec<u8>)| (p.0@, p.1@));
    assert(text@.subrange(0, text@.len() as int) =~= text@);
    assert(view_of(pairs@) =~= Seq::<PairView>::empty());
    while pos < text.len()
        invariant
            pos <= text@.len(),
            view_of == (|ps: Seq<(Vec<u8>, Vec<u8>)>| ps.map_values(|p: (Vec<u8>, Vec<u8>)| (p.0@, p.1@))),
            config_from((section@, view_of(pairs@)), text@.subrange(pos as int, text@.len() as int))
                == config_from((Seq::empty(), Seq::empty()), text@),
        decreases text@.len() - pos,
    {
        let ghost rest = text@.subrange(pos as int, text@.len() as int);
        let end = find_byte(text, 10, pos);
        proof {
            lemma_find_from_shift(text@, 10, pos as int, 0);
        }
        let raw = copy_range(text, pos, end);
        assert(raw@ =~= rest.subrange(0, end - pos));
        let line = trim_bytes(raw.as_slice());
        let n = line.len();
        if n >= 2 && line[0] == 91 && line[n - 1] == 93 {
            section = copy_range(line.as_slice(), 1, n - 1);
        } else {
            let eq = find_byte(line.as_slice(), 61, 0);
            if eq < n {
                let mut key = copy_range(section.as_slice(), 0, section.len());
                key.push(46);
                let k = trim_bytes(copy_range(line.as_slice(), 0, eq).as_slice());
                push_all(&mut key, k.as_slice());
                let value = trim_bytes(copy_range(line.as_slice(), eq + 1, n).as_slice());
                let ghost before = view_of(pairs@);
                pairs.push((key, value));
                assert(view_of(pairs@) =~= before.push((key@, value@)));
                assert(key@ =~= section@ + seq![46u8] + trim(line@.subrange(0, eq as int)));
            }
        }
        if end < text.len() {
            assert(rest.subrange(end - pos + 1, rest.len() as int) =~= text@.subrange(
                end + 1,
                text@.len() as int,
            ));
            pos = end + 1;
        } else {
            pos = end;
            assert(text@.subrange(pos as int, text@.len() as int) =~= Seq::<u8>::empty());
        }
    }
    assert(text@.subrange(pos as int, text@.len() as int) =~= Seq::<u8>::empty());
    Config { pairs }
}

impl Config {
    /// A configuration with no entry.
    pub fn new() -> (r: Config)
        ensures
            r@ == Seq::<PairView>::empty(),
    {
        let r = Config { pairs: Vec::new() };
        assert(r@ =~= Seq::<PairView>::empty());
        r
    }

    /// The value under full key `key`, the last one if several are.
    pub fn get(&self, key: &[u8]) -> (r: Option<Vec<u8>>)
        ensures
            match r {
                Some(v) => lookup(self@, key@) == Some(v@),
                None => lookup(self@, key@) is None,
            },
    {
        let mut i: usize = self.pairs.len();
        assert(self@.subrange(0, self@.len() as int) =~= self@);
        while i > 0
            invariant
                i <= self@.len(),
                self@.len() == self.pairs@.len(),
                lookup(self@.subrange(0, i as int), key@) == lookup(self@, key@),
            decreases i,
        {
            let ghost sub = self@.subrange(0, i as int);
            assert(sub.last() == self@[i - 1]);
            assert(sub.drop_last() =~= self@.subrange(0, i - 1));
            if bytes_eq(self.pairs[i - 1].0.as_slice(), key) {
                let v = copy_range(self.pairs[i - 1].1.as_slice(), 0, self.pairs[i - 1].1.len());
                assert(v@ =~= self@[i - 1].1);
                return Some(v);
            }
            i = i - 1;
        }
        assert(self@.subrange(0, self@.len() as int) =~= self@);
        None
    }

    /// Adds the pair `key = value`; it takes precedence over earlier ones.
    pub fn set(&mut self, key: &[u8], value: &[u8])
        ensures
            final(self)@ == old(self)@.push((key@, value@)),
    {
        let k = copy_range(key, 0, key.len());
        let v = copy_range(value, 0, value.len());
        assert(k@ =~= key@);
        assert(v@ =~= value@);
        self.pairs.push((k, v));
        assert(self@ =~= old(self)@.push((key@, value@)));
    }
}

} // verus!

verus! {

/// The configuration file written after a change: a `[user]` section with
/// the `name` and `email` lines that have values.
pub open spec fn render_user(s: Seq<PairView>) -> Seq<u8> {
    let name_key = seq![117u8, 115, 101, 114, 46, 110, 97, 109, 101];
    let email_key = seq![117u8, 115, 101, 114, 46, 101, 109, 97, 105, 108];
    let head = seq![91u8, 117, 115, 101, 114, 93, 10];
    let name_line = match lookup(s, name_key) {
        Some(v) => seq![32u8, 32, 110, 97, 109, 101, 32, 61, 32] + v + seq![10u8],
        None => Seq::empty(),
    };
    let email_line = match lookup(s, email_key) {
        Some(v) => seq![32u8, 32, 101, 109, 97, 105, 108, 32, 61, 32] + v + seq![10u8],
        None => Seq::empty(),
    };
    head + name_line + email_line
}

impl Config {
    /// The configuration file for this configuration.
    pub fn render(&self) -> (r: Vec<u8>)
        ensures
            r@ == render_user(self@),
    {
        let mut out = vec![91u8, 117, 115, 101, 114, 93, 10];
        let nk = vec![117u8, 115, 101, 114, 46, 110, 97, 109, 101];
        let ek = vec![117u8, 115, 101, 114, 46, 101, 109, 97, 105, 108];
        assert(nk@ =~= seq![117u8, 115, 101, 114, 46, 110, 97, 109, 101]);
        assert(ek@ =~= seq![117u8, 115, 101, 114, 46, 101, 109, 97, 105, 108]);
        let ghost head = out@;
        match self.get(nk.as_slice()) {
            Some(v) => {
                let pre = vec![32u8, 32, 110, 97, 109, 101, 32, 61, 32];
                push_all(&mut out, pre.as_slice());
                push_all(&mut out, v.as_slice());
                out.push(10);
            },
            None => {},
        }
        let ghost mid = out@;
        match self.get(ek.as_slice()) {
            Some(v) => {
                let pre = vec![32u8, 32, 101, 109, 97, 105, 108, 32, 61, 32];
                push_all(&mut out, pre.as_slice());
                push_all(&mut out, v.as_slice());
                out.push(10);
            },
            None => {},
        }
        assert(out@ =~= render_user(self@));
        out
    }
}

/// What `config <key> [<value>]` does.
#[derive(Debug, Clone, PartialEq, Eq)]
pub enum ConfigAction {
    /// Replace the configuration file with this text.
    Write(Vec<u8>),
    /// Print this value, or nothing when the key has none.
    Print(Option<Vec<u8>>),
}

/// Gets or sets a configuration key, given the current file's text: with a
/// value, the file is rewritten with the key set; without, the key's value
/// is printed.
pub fn run(config_text: &[u8], key: &[u8], value: Option<&[u8]>) -> (r: ConfigAction)
    ensures
        match value {
            Some(v) => r == ConfigAction::Write(r->Write_0) && r->Write_0@ == render_user(
                parse_config_spec(config_text@).push((key@, v@)),
            ),
            None => r == ConfigAction::Print(r->Print_0) && match r->Print_0 {
                Some(x) => lookup(parse_config_spec(config_text@), key@) == Some(x@),
                None => lookup(parse_config_spec(config_text@), key@) is None,
            },
        },
{
    let mut config = parse_config(config_text);
    match value {
        Some(v) => {
            config.set(key, v);
            ConfigAction::Write(config.render())
        },
        None => ConfigAction::Print(config.get(key)),
    }
}

} // verus!

//! HEAD and branch references: reading HEAD's two forms and resolving it to
//! a commit.

use crate::codec::{copy_range, push_all};
use crate::config::{trim, trim_bytes};
use crate::tree::{has_prefix, starts_with};
use vstd::prelude::*;

verus! {

/// `"ref: "`
pub open spec fn ref_tag() -> Seq<u8> {
    seq![114u8, 101, 102, 58, 32]
}

/// `"refs/heads/"`
pub open spec fn heads_prefix() -> Seq<u8> {
    seq![114u8, 101, 102, 115, 47, 104, 101, 97, 100, 115, 47]
}

/// What HEAD holds.
#[derive(Debug, Clone, PartialEq, Eq)]
pub enum Head {
    /// `ref: <path>`: attached to the branch whose reference file is at
    /// `path` (such as `refs/heads/main`).
    Symbolic(Vec<u8>),
    /// A raw commit hash.
    Detached(Vec<u8>),
}

/// HEAD's meaning as a spec value: `(true, path)` for a symbolic HEAD,
/// `(false, hash)` for a detached one.
pub open spec fn head_of(text: Seq<u8>) -> (bool, Seq<u8>) {
    if starts_with(text, ref_tag()) {
        (true, trim(text.subrange(5, text.len() as int)))
    } else {
        (false, trim(text))
    }
}

impl View for Head {
    type V = (bool, Seq<u8>);

    open spec fn view(&self) -> (bool, Seq<u8>) {
        match self {
            Head::Symbolic(p) => (true, p@),
            Head::Detached(h) => (false, h@),
        }
    }
}

/// Reads HEAD: `ref: <path>` is symbolic, anything else a detached hash;
/// surrounding whitespace is dropped.
pub fn parse_head(text: &[u8]) -> (r: Head)
    ensures
        r@ == head_of(text@),
{
    let tag = vec![114u8, 101, 102, 58, 32];
    assert(tag@ =~= ref_tag());
    if has_prefix(text, tag.as_slice()) {
        let rest = copy_range(text, 5, text.len());
        Head::Symbolic(trim_bytes(rest.as_slice()))
    } else {
        Head::Detached(trim_bytes(text))
    }
}

/// The branch name of a reference path: what follows `refs/heads/`, or the
/// whole path when it does not begin so.
pub open spec fn branch_of_ref(p: Seq<u8>) -> Seq<u8> {
    if starts_with(p, heads_prefix()) {
        p.subrange(11, p.len() as int)
    } else {
        p
    }
}

impl Head {
    /// The current branch's name, or `None` when HEAD is detached.
    pub fn current_branch(&self) -> (r: Option<Vec<u8>>)
        ensures
            match r {
                Some(n) => self@.0 && n@ == branch_of_ref(self@.1),
                None => !self@.0,
            },
    {
        match self {
            Head::Symbolic(p) => {
                let pre = vec![114u8, 101, 102, 115, 47, 104, 101, 97, 100, 115, 47];
                assert(pre@ =~= heads_prefix());
                if has_prefix(p.as_slice(), pre.as_slice()) {
                    Some(copy_range(p.as_slice(), 11, p.len()))
                } else {
                    let c = copy_range(p.as_slice(), 0, p.len());
                    assert(c@ =~= p@);
                    Some(c)
                }
            },
            Head::Detached(_) => None,
        }
    }

    /// The commit HEAD resolves to. For a symbolic HEAD, `branch_file` is
    /// the content of the reference file (`None` when it does not exist):
    /// its trimmed content if not empty. For a detached HEAD, the hash if
    /// not empty.
    pub fn head_commit(&self, branch_file: Option<&[u8]>) -> (r: Option<Vec<u8>>)
        ensures
            match r {
                Some(h) => h@.len() > 0 && (if self@.0 {
                    branch_file matches Some(c) && h@ == trim(c@)
                } else {
                    h@ == self@.1
                }),
                None => if self@.0 {
                    branch_file matches Some(c) ==> trim(c@).len() == 0
                } else {
                    self@.1.len() == 0
                },
            },
    {
        match self {
            Head::Symbolic(_) => match branch_file {
                Some(c) => {
                    let t = trim_bytes(c);
                    if t.len() > 0 {
                        Some(t)
                    } else {
                        None
                    }
                },
                None => None,
            },
            Head::Detached(h) => {
                if h.len() > 0 {
                    let c = copy_range(h.as_slice(), 0, h.len());
                    assert(c@ =~= h@);
                    Some(c)
                } else {
                    None
                }
            },
        }
    }
}

/// The HEAD text attaching HEAD to branch `name`: `ref: refs/heads/<name>`.
pub open spec fn branch_head_text(name: Seq<u8>) -> Seq<u8> {
    ref_tag() + heads_prefix() + name
}

/// The HEAD text attaching HEAD to branch `name`.
pub fn head_text_for_branch(name: &[u8]) -> (r: Vec<u8>)
    ensures
        r@ == branch_head_text(name@),
{
    let mut out = vec![114u8, 101, 102, 58, 32, 114, 101, 102, 115, 47, 104, 101, 97, 100, 115, 47];
    assert(out@ =~= ref_tag() + heads_prefix());
    push_all(&mut out, name);
    out
}

/// The reference file's path for branch `name`: `refs/heads/<name>`.
pub fn branch_ref_path(name: &[u8]) -> (r: Vec<u8>)
    ensures
        r@ == heads_prefix() + name@,
{
    let mut out = vec![114u8, 101, 102, 115, 47, 104, 101, 97, 100, 115, 47];
    assert(out@ =~= heads_prefix());
    push_all(&mut out, name);
    out
}

/// The first seven characters of a hash, or all of it when shorter.
pub fn short_hash(h: &[u8]) -> (r: Vec<u8>)
    ensures
        r@ == h@.subrange(0, if h@.len() < 7 { h@.len() as int } else { 7 }),
{
    let n: usize = if h.len() < 7 { h.len() } else { 7 };
    copy_range(h, 0, n)
}

} // verus!

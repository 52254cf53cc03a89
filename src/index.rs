//! The staging index: at most one entry per path, each with a mode and the
//! hex identity of a blob, kept as lines `"<mode> <hash> <path>"`.

use crate::codec::{bytes_eq, copy_range, find_byte, find_from, lemma_find_from_shift, lemma_find_from_bounds, from_hex, hex_ascii, hex_text, push_all, unhex};
use crate::error::RitError;
use crate::mode::{mode_of_text, mode_text, FileMode};
use crate::object::{object_id, store_object, after_store, ObjectKind, ObjectStore};
use vstd::prelude::*;

verus! {

/// What an entry is: its mode, its hash as hex text, and its path.
pub type EntryView = (FileMode, Seq<u8>, Seq<u8>);

/// One staged file.
#[derive(Debug, Clone, PartialEq, Eq)]
pub struct IndexEntry {
    pub mode: FileMode,
    /// The blob's identity as 40 lowercase hex digits.
    pub sha1: Vec<u8>,
    /// The path relative to the repository root, components separated by `/`.
    pub path: Vec<u8>,
}

impl View for IndexEntry {
    type V = EntryView;

    open spec fn view(&self) -> EntryView {
        (self.mode, self.sha1@, self.path@)
    }
}

pub open spec fn entries_view(v: Seq<IndexEntry>) -> Seq<EntryView> {
    v.map_values(|e: IndexEntry| e@)
}

/// No two entries share a path.
pub open spec fn unique_paths(s: Seq<EntryView>) -> bool {
    forall|i: int, j: int| 0 <= i < j < s.len() ==> s[i].2 != s[j].2
}

/// Whether some entry has path `p`.
pub open spec fn has_path(s: Seq<EntryView>, p: Seq<u8>) -> bool {
    exists|i: int| 0 <= i < s.len() && s[i].2 == p
}

/// The entries whose path is not `p`, in their order.
pub open spec fn without_path(s: Seq<EntryView>, p: Seq<u8>) -> Seq<EntryView>
    decreases s.len(),
{
    if s.len() == 0 {
        s
    } else {
        let rest = without_path(s.drop_last(), p);
        if s.last().2 == p {
            rest
        } else {
            rest.push(s.last())
        }
    }
}

/// The entries after staging `e`: any entry for its path is dropped and `e`
/// is appended.
pub open spec fn upserted(s: Seq<EntryView>, e: EntryView) -> Seq<EntryView> {
    without_path(s, e.2).push(e)
}

/// 40 hex digits, the text of a 20-byte identity.
pub open spec fn valid_hash_text(h: Seq<u8>) -> bool {
    h.len() == 40 && unhex(h) is Some
}

/// An entry as read from one index line: `"<mode> <hash> <path>"`, or the
/// older `"<hash> <path>"` with a regular mode. `None` for a malformed line.
pub open spec fn parse_line(l: Seq<u8>) -> Option<EntryView> {
    let a = find_from(l, 32, 0);
    if a >= l.len() {
        None
    } else {
        let first = l.subrange(0, a);
        let rest = l.subrange(a + 1, l.len() as int);
        match mode_of_text(first) {
            Some(m) => {
                let b = find_from(rest, 32, 0);
                if b >= rest.len() {
                    None
                } else {
                    let h = rest.subrange(0, b);
                    let p = rest.subrange(b + 1, rest.len() as int);
                    if valid_hash_text(h) && p.len() > 0 {
                        Some((m, h, p))
                    } else {
                        None
                    }
                }
            },
            None => {
                if valid_hash_text(first) && rest.len() > 0 {
                    Some((FileMode::Regular, first, rest))
                } else {
                    None
                }
            },
        }
    }
}

/// `s` after one index line is read.
pub open spec fn apply_line(s: Seq<EntryView>, l: Seq<u8>) -> Seq<EntryView> {
    match parse_line(l) {
        Some(e) => upserted(s, e),
        None => s,
    }
}

/// `s` after every line of `text` is read; lines end at `\n`.
pub open spec fn parse_from(s: Seq<EntryView>, text: Seq<u8>) -> Seq<EntryView>
    decreases text.len(),
{
    if text.len() == 0 {
        s
    } else {
        let p = find_from(text, 10, 0);
        let s2 = apply_line(s, text.subrange(0, p));
        if 0 <= p < text.len() {
            parse_from(s2, text.subrange(p + 1, text.len() as int))
        } else {
            s2
        }
    }
}

/// The number of non-empty lines of `text` that are malformed.
pub open spec fn skipped_lines(text: Seq<u8>) -> nat
    decreases text.len(),
{
    if text.len() == 0 {
        0
    } else {
        let p = find_from(text, 10, 0);
        let line = text.subrange(0, p);
        let here: nat = if line.len() > 0 && parse_line(line) is None { 1 } else { 0 };
        if 0 <= p < text.len() {
            here + skipped_lines(text.subrange(p + 1, text.len() as int))
        } else {
            here
        }
    }
}

/// The index line of one entry, with its newline.
pub open spec fn entry_line(e: EntryView) -> Seq<u8> {
    mode_text(e.0) + seq![32u8] + e.1 + seq![32u8] + e.2 + seq![10u8]
}

/// The index file for a sequence of entries.
pub open spec fn index_text(s: Seq<EntryView>) -> Seq<u8>
    decreases s.len(),
{
    if s.len() == 0 {
        Seq::empty()
    } else {
        index_text(s.drop_last()) + entry_line(s.last())
    }
}

/// Whether the working copy `w` of entry `e` differs from what is staged:
/// its blob hash is not the staged one.
pub open spec fn is_dirty(e: EntryView, w: Option<Seq<u8>>) -> bool {
    match w {
        Some(c) => hex_ascii(object_id(ObjectKind::Blob, c)) != e.1,
        None => false,
    }
}

/// The paths of the entries whose working copies are dirty, in index order.
pub open spec fn dirty_paths_of(s: Seq<EntryView>, w: Seq<Option<Seq<u8>>>) -> Seq<Seq<u8>>
    decreases s.len(),
{
    if s.len() == 0 || w.len() != s.len() {
        Seq::empty()
    } else {
        let rest = dirty_paths_of(s.drop_last(), w.drop_last());
        if is_dirty(s.last(), w.last()) {
            rest.push(s.last().2)
        } else {
            rest
        }
    }
}

pub proof fn lemma_without_path(s: Seq<EntryView>, p: Seq<u8>)
    ensures
        !has_path(without_path(s, p), p),
        forall|e: EntryView| #[trigger] without_path(s, p).contains(e) <==> (s.contains(e) && e.2 != p),
        unique_paths(s) ==> unique_paths(without_path(s, p)),
        !has_path(s, p) ==> without_path(s, p) == s,
        without_path(s, p).len() <= s.len(),
    decreases s.len(),
{
    if s.len() > 0 {
        let r = without_path(s.drop_last(), p);
        lemma_without_path(s.drop_last(), p);
        assert forall|e: EntryView| without_path(s, p).contains(e) <==> (s.contains(e) && e.2 != p) by {
            let w = without_path(s, p);
            let d = s.drop_last();
            if s.contains(e) && e.2 != p {
                let i = choose|i: int| 0 <= i < s.len() && s[i] == e;
                if i < s.len() - 1 {
                    assert(d[i] == e);
                    assert(d.contains(e));
                    assert(r.contains(e));
                    let k = choose|k: int| 0 <= k < r.len() && r[k] == e;
                    if s.last().2 != p {
                        assert(w[k] == e);
                    } else {
                        assert(w[k] == e);
                    }
                } else {
                    assert(w[w.len() - 1] == e);
                }
            }
            if w.contains(e) {
                let k = choose|k: int| 0 <= k < w.len() && w[k] == e;
                if s.last().2 != p && k == w.len() - 1 {
                    assert(s[s.len() - 1] == e);
                } else {
                    assert(r[k] == e);
                    assert(r.contains(e));
                    let i = choose|i: int| 0 <= i < d.len() && d[i] == e;
                    assert(s[i] == e);
                }
            }
        }
        if unique_paths(s) {
            assert(unique_paths(s.drop_last()));
            if s.last().2 != p {
                assert forall|i: int, j: int|
                    0 <= i < j < r.push(s.last()).len() implies r.push(s.last())[i].2 != r.push(
                    s.last(),
                )[j].2 by {
                    if j == r.len() {
                        assert(r.contains(r[i]));
                        let k = choose|k: int| 0 <= k < s.drop_last().len() && s.drop_last()[k] == r[i];
                        assert(s[k] == r[i]);
                    }
                }
            }
        }
        if !has_path(s, p) {
            assert(!has_path(s.drop_last(), p)) by {
                if has_path(s.drop_last(), p) {
                    let i = choose|i: int| 0 <= i < s.drop_last().len() && s.drop_last()[i].2 == p;
                    assert(s[i].2 == p);
                }
            }
            assert(s.last().2 != p);
            assert(r.push(s.last()) =~= s);
        }
        assert(!has_path(without_path(s, p), p)) by {
            if has_path(without_path(s, p), p) {
                let i = choose|i: int| 0 <= i < without_path(s, p).len() && without_path(s, p)[i].2 == p;
                assert(without_path(s, p).contains(without_path(s, p)[i]));
            }
        }
    }
}

pub proof fn lemma_upserted(s: Seq<EntryView>, e: EntryView)
    requires
        unique_paths(s),
    ensures
        unique_paths(upserted(s, e)),
        upserted(s, e).last() == e,
{
    lemma_without_path(s, e.2);
    let w = without_path(s, e.2);
    assert forall|i: int, j: int| 0 <= i < j < w.push(e).len() implies w.push(e)[i].2 != w.push(e)[j].2 by {
        if j == w.len() {
            assert(w[i].2 != e.2) by {
                if w[i].2 == e.2 {
                    assert(has_path(w, e.2));
                }
            }
        }
    }
}

/// The staging index.
pub struct Index {
    entries: Vec<IndexEntry>,
}

impl View for Index {
    type V = Seq<EntryView>;

    closed spec fn view(&self) -> Seq<EntryView> {
        entries_view(self.entries@)
    }
}

impl Index {
    /// At most one entry per path.
    pub open spec fn wf(&self) -> bool {
        unique_paths(self@)
    }

    /// An empty index.
    pub fn new() -> (r: Index)
        ensures
            r@ == Seq::<EntryView>::empty(),
            r.wf(),
    {
        let r = Index { entries: Vec::new() };
        assert(r@ =~= Seq::<EntryView>::empty());
        r
    }

    /// The entries, in index order.
    pub fn entries(&self) -> (r: &Vec<IndexEntry>)
        ensures
            entries_view(r@) == self@,
    {
        &self.entries
    }

    /// Whether the index has no entry.
    pub fn is_empty(&self) -> (r: bool)
        ensures
            r == (self@.len() == 0),
    {
        self.entries.len() == 0
    }

    /// The position of the entry for `path`, if any.
    pub fn position(&self, path: &[u8]) -> (r: Option<usize>)
        ensures
            match r {
                Some(i) => i < self@.len() && self@[i as int].2 == path@,
                None => !has_path(self@, path@),
            },
    {
        let mut i: usize = 0;
        while i < self.entries.len()
            invariant
                i <= self@.len(),
                self@.len() == self.entries@.len(),
                forall|j: int| 0 <= j < i ==> self@[j].2 != path@,
            decreases self@.len() - i,
        {
            if bytes_eq(self.entries[i].path.as_slice(), path) {
                return Some(i);
            }
            i = i + 1;
        }
        None
    }

    fn without(&self, path: &[u8]) -> (r: Vec<IndexEntry>)
        ensures
            entries_view(r@) == without_path(self@, path@),
    {
        let mut out: Vec<IndexEntry> = Vec::new();
        let mut i: usize = 0;
        while i < self.entries.len()
            invariant
                i <= self.entries@.len(),
                entries_view(out@) == without_path(self@.subrange(0, i as int), path@),
            decreases self.entries@.len() - i,
        {
            let e = &self.entries[i];
            assert(self@.subrange(0, i + 1).drop_last() =~= self@.subrange(0, i as int));
            if !bytes_eq(e.path.as_slice(), path) {
                out.push(e.clone_entry());
                assert(entries_view(out@) =~= without_path(self@.subrange(0, i + 1), path@));
            }
            i = i + 1;
        }
        assert(self@.subrange(0, self@.len() as int) =~= self@);
        out
    }

    /// Stages `e`: any entry for its path is replaced, and `e` goes last.
    pub fn upsert(&mut self, e: IndexEntry)
        requires
            old(self).wf(),
        ensures
            final(self).wf(),
            final(self)@ == upserted(old(self)@, e@),
    {
        let mut rest = self.without(e.path.as_slice());
        proof {
            lemma_upserted(self@, e@);
        }
        rest.push(e);
        self.entries = rest;
        assert(self@ =~= upserted(old(self)@, e@));
    }

    /// Unstages `path`; fails with `NotFound` when no entry has that path.
    pub fn remove(&mut self, path: &[u8]) -> (r: Result<(), RitError>)
        requires
            old(self).wf(),
        ensures
            final(self).wf(),
            match r {
                Ok(()) => has_path(old(self)@, path@) && final(self)@ == without_path(
                    old(self)@,
                    path@,
                ),
                Err(e) => !has_path(old(self)@, path@) && e == RitError::NotFound && final(self)@
                    == old(self)@,
            },
    {
        if self.position(path).is_none() {
            return Err(RitError::NotFound);
        }
        let rest = self.without(path);
        proof {
            lemma_without_path(self@, path@);
        }
        self.entries = rest;
        Ok(())
    }
}

impl IndexEntry {
    /// A copy of this entry.
    pub fn clone_entry(&self) -> (r: IndexEntry)
        ensures
            r@ == self@,
    {
        IndexEntry {
            mode: self.mode,
            sha1: copy_range(self.sha1.as_slice(), 0, self.sha1.len()),
            path: copy_range(self.path.as_slice(), 0, self.path.len()),
        }
    }
}

} // verus!

verus! {

/// The paths of a sequence of path vectors.
pub open spec fn paths_view(v: Seq<Vec<u8>>) -> Seq<Seq<u8>> {
    v.map_values(|p: Vec<u8>| p@)
}

/// What the working tree holds for each entry: a file's bytes, or `None`
/// when the file is missing.
pub open spec fn working_view(w: Seq<Option<Vec<u8>>>) -> Seq<Option<Seq<u8>>> {
    w.map_values(
        |o: Option<Vec<u8>>|
            match o {
                Some(v) => Some(v@),
                None => None,
            },
    )
}

/// Reads one index line.
pub fn parse_index_line(l: &[u8]) -> (r: Option<IndexEntry>)
    ensures
        match r {
            Some(e) => parse_line(l@) == Some(e@),
            None => parse_line(l@) is None,
        },
{
    let a = find_byte(l, 32, 0);
    if a >= l.len() {
        return None;
    }
    let first = copy_range(l, 0, a);
    let rest = copy_range(l, a + 1, l.len());
    match FileMode::parse(first.as_slice()) {
        Some(m) => {
            let b = find_byte(rest.as_slice(), 32, 0);
            if b >= rest.len() {
                return None;
            }
            let h = copy_range(rest.as_slice(), 0, b);
            let p = copy_range(rest.as_slice(), b + 1, rest.len());
            if is_hash_text(h.as_slice()) && p.len() > 0 {
                Some(IndexEntry { mode: m, sha1: h, path: p })
            } else {
                None
            }
        },
        None => {
            if is_hash_text(first.as_slice()) && rest.len() > 0 {
                Some(IndexEntry { mode: FileMode::Regular, sha1: first, path: rest })
            } else {
                None
            }
        },
    }
}

/// Whether `h` is 40 hex digits.
pub fn is_hash_text(h: &[u8]) -> (r: bool)
    ensures
        r == valid_hash_text(h@),
{
    h.len() == 40 && from_hex(h).is_some()
}

/// Reads an index file: each well-formed line stages its entry, a later line
/// for a path replacing an earlier one. Also returns how many non-empty lines
/// were malformed and skipped.
pub fn read_index(text: &[u8]) -> (r: (Index, usize))
    ensures
        r.0.wf(),
        r.0@ == parse_from(Seq::empty(), text@),
        r.1 == skipped_lines(text@),
{
    let mut idx = Index::new();
    let mut skipped: usize = 0;
    let mut pos: usize = 0;
    assert(text@.subrange(0, text@.len() as int) =~= text@);
    while pos < text.len()
        invariant
            pos <= text@.len(),
            idx.wf(),
            skipped <= pos,
            parse_from(idx@, text@.subrange(pos as int, text@.len() as int)) == parse_from(
                Seq::empty(),
                text@,
            ),
            skipped + skipped_lines(text@.subrange(pos as int, text@.len() as int))
                == skipped_lines(text@),
        decreases text@.len() - pos,
    {
        let ghost rest = text@.subrange(pos as int, text@.len() as int);
        let end = find_byte(text, 10, pos);
        proof {
            lemma_find_from_shift(text@, 10, pos as int, 0);
        }
        let line = copy_range(text, pos, end);
        assert(line@ =~= rest.subrange(0, end - pos));
        match parse_index_line(line.as_slice()) {
            Some(e) => {
                idx.upsert(e);
            },
            None => {
                if line.len() > 0 {
                    skipped = skipped + 1;
                }
            },
        }
        if end < text.len() {
            assert(rest.subrange(end - pos + 1, rest.len() as int) =~= text@.subrange(
                end + 1,
                text@.len() as int,
            ));
            pos = end + 1;
        } else {
            pos = end;
            assert(text@.subrange(pos as int, text@.len() as int) =~= Seq::<u8>::empty());
        }
    }
    assert(text@.subrange(pos as int, text@.len() as int) =~= Seq::<u8>::empty());
    (idx, skipped)
}

impl Index {
    /// The index file: one line `"<mode> <hash> <path>\n"` per entry, in order.
    pub fn to_text(&self) -> (r: Vec<u8>)
        ensures
            r@ == index_text(self@),
    {
        let mut out: Vec<u8> = Vec::new();
        let mut i: usize = 0;
        while i < self.entries.len()
            invariant
                i <= self@.len(),
                self@.len() == self.entries@.len(),
                out@ == index_text(self@.subrange(0, i as int)),
            decreases self@.len() - i,
        {
            let e = &self.entries[i];
            let m = e.mode.text();
            push_all(&mut out, m.as_slice());
            out.push(32);
            push_all(&mut out, e.sha1.as_slice());
            out.push(32);
            push_all(&mut out, e.path.as_slice());
            out.push(10);
            assert(self@.subrange(0, i + 1).drop_last() =~= self@.subrange(0, i as int));
            assert(out@ =~= index_text(self@.subrange(0, i + 1)));
            i = i + 1;
        }
        assert(self@.subrange(0, self@.len() as int) =~= self@);
        out
    }

    /// Stages `content` as the file at `path` with mode `mode`: unless the
    /// index already holds exactly that entry, the blob is written to `store`
    /// and the entry upserted. Returns whether anything changed.
    pub fn stage_file(&mut self, store: &mut ObjectStore, path: &[u8], mode: FileMode, content: &[u8]) -> (changed: bool)
        requires
            old(self).wf(),
            old(store).wf(),
        ensures
            final(self).wf(),
            final(store).wf(),
            changed == !old(self)@.contains((mode, hex_ascii(object_id(ObjectKind::Blob, content@)), path@)),
            changed ==> final(self)@ == upserted(
                old(self)@,
                (mode, hex_ascii(object_id(ObjectKind::Blob, content@)), path@),
            ) && final(store)@ == after_store(old(store)@, ObjectKind::Blob, content@),
            !changed ==> final(self)@ == old(self)@ && final(store)@ == old(store)@,
            forall|i: int|
                0 <= i < old(store).spec_len() ==> #[trigger] final(store).id_at(i) == old(store).id_at(i),
            final(store).spec_len() >= old(store).spec_len(),
    {
        let ghost e = (mode, hex_ascii(object_id(ObjectKind::Blob, content@)), path@);
        let h = hex_text(crate::object::hash_object(ObjectKind::Blob, content).as_slice());
        match self.position(path) {
            Some(i) => {
                let cur = &self.entries[i];
                if cur.mode == mode && bytes_eq(cur.sha1.as_slice(), h.as_slice()) {
                    assert(self@[i as int] == e);
                    return false;
                }
                assert(!self@.contains(e)) by {
                    if self@.contains(e) {
                        let j = choose|j: int| 0 <= j < self@.len() && self@[j] == e;
                        assert(self@[j].2 == self@[i as int].2);
                    }
                }
            },
            None => {
                assert(!self@.contains(e)) by {
                    if self@.contains(e) {
                        let j = choose|j: int| 0 <= j < self@.len() && self@[j] == e;
                        assert(self@[j].2 == path@);
                    }
                }
            },
        }
        let _id = store_object(store, ObjectKind::Blob, content);
        let p = copy_range(path, 0, path.len());
        assert(p@ =~= path@);
        self.upsert(IndexEntry { mode, sha1: h, path: p });
        true
    }

    /// The paths of the entries whose working copy differs from what is
    /// staged; `working[i]` is the working copy of entry `i`.
    pub fn dirty_paths(&self, working: &Vec<Option<Vec<u8>>>) -> (r: Vec<Vec<u8>>)
        requires
            working@.len() == self@.len(),
        ensures
            paths_view(r@) == dirty_paths_of(self@, working_view(working@)),
    {
        let mut out: Vec<Vec<u8>> = Vec::new();
        let mut i: usize = 0;
        while i < self.entries.len()
            invariant
                i <= self@.len(),
                self@.len() == self.entries@.len(),
                working@.len() == self@.len(),
                paths_view(out@) == dirty_paths_of(
                    self@.subrange(0, i as int),
                    working_view(working@).subrange(0, i as int),
                ),
            decreases self@.len() - i,
        {
            let e = &self.entries[i];
            let ghost ws = working_view(working@);
            let ghost before = paths_view(out@);
            assert(self@.subrange(0, i + 1).drop_last() =~= self@.subrange(0, i as int));
            assert(ws.subrange(0, i + 1).drop_last() =~= ws.subrange(0, i as int));
            assert(self@.subrange(0, i + 1).last() == self@[i as int]);
            assert(ws.subrange(0, i + 1).last() == ws[i as int]);
            assert(self@[i as int] == e@);
            match &working[i] {
                Some(c) => {
                    let h = hex_text(crate::object::hash_object(ObjectKind::Blob, c.as_slice()).as_slice());
                    assert(ws[i as int] == Some(c@));
                    if !bytes_eq(h.as_slice(), e.sha1.as_slice()) {
                        let pc = copy_range(e.path.as_slice(), 0, e.path.len());
                        assert(pc@ =~= e.path@);
                        out.push(pc);
                        assert(paths_view(out@) =~= before.push(e.path@));
                    } else {
                        assert(paths_view(out@) =~= before);
                    }
                },
                None => {
                    assert(ws[i as int] == None::<Seq<u8>>);
                },
            }
            assert(paths_view(out@) =~= dirty_paths_of(
                self@.subrange(0, i + 1),
                working_view(working@).subrange(0, i + 1),
            ));
            i = i + 1;
        }
        assert(self@.subrange(0, self@.len() as int) =~= self@);
        assert(working_view(working@).subrange(0, self@.len() as int) =~= working_view(working@));
        out
    }

    /// The safety check before a checkout: fails with `Dirty`, listing every
    /// such path, when some tracked file's working copy differs from the index.
    pub fn check_clean(&self, working: &Vec<Option<Vec<u8>>>) -> (r: Result<(), RitError>)
        requires
            working@.len() == self@.len(),
        ensures
            match r {
                Ok(()) => dirty_paths_of(self@, working_view(working@)).len() == 0,
                Err(RitError::Dirty { paths }) => paths_view(paths@) == dirty_paths_of(
                    self@,
                    working_view(working@),
                ) && paths@.len() > 0,
                Err(_) => false,
            },
    {
        let d = self.dirty_paths(working);
        if d.len() == 0 {
            Ok(())
        } else {
            Err(RitError::Dirty { paths: d })
        }
    }
}

} // verus!

verus! {

/// Dirty-checkout guard: a tracked file whose working copy hashes to other
/// than the staged hash is among the dirty paths, so `check_clean` and
/// `plan_checkout` fail before anything is written.
pub proof fn lemma_dirty_file_listed(s: Seq<EntryView>, w: Seq<Option<Seq<u8>>>, i: int)
    requires
        w.len() == s.len(),
        0 <= i < s.len(),
        is_dirty(s[i], w[i]),
    ensures
        dirty_paths_of(s, w).contains(s[i].2),
        dirty_paths_of(s, w).len() > 0,
    decreases s.len(),
{
    let rest = dirty_paths_of(s.drop_last(), w.drop_last());
    if i == s.len() - 1 {
        assert(dirty_paths_of(s, w) == rest.push(s[i].2));
        assert(dirty_paths_of(s, w)[rest.len() as int] == s[i].2);
    } else {
        assert(s.drop_last()[i] == s[i]);
        assert(w.drop_last()[i] == w[i]);
        lemma_dirty_file_listed(s.drop_last(), w.drop_last(), i);
        let j = choose|j: int| 0 <= j < rest.len() && rest[j] == s[i].2;
        if is_dirty(s.last(), w.last()) {
            assert(dirty_paths_of(s, w)[j] == s[i].2);
        } else {
            assert(dirty_paths_of(s, w) == rest);
        }
    }
}

} // verus!

verus! {

/// `p` without any leading `./`.
pub open spec fn normalized(p: Seq<u8>) -> Seq<u8>
    decreases p.len(),
{
    if p.len() >= 2 && p[0] == 46 && p[1] == 47 {
        normalized(p.subrange(2, p.len() as int))
    } else {
        p
    }
}

/// A repository-relative path without any leading `./`.
pub fn normalize_path(p: &[u8]) -> (r: Vec<u8>)
    ensures
        r@ == normalized(p@),
{
    let mut a: usize = 0;
    assert(p@.subrange(0, p@.len() as int) =~= p@);
    while p.len() - a >= 2 && p[a] == 46 && p[a + 1] == 47
        invariant
            a <= p@.len(),
            normalized(p@.subrange(a as int, p@.len() as int)) == normalized(p@),
        decreases p@.len() - a,
    {
        assert(p@.subrange(a as int, p@.len() as int).subrange(2, p@.len() - a) =~= p@.subrange(
            a + 2,
            p@.len() as int,
        ));
        a = a + 2;
    }
    copy_range(p, a, p.len())
}

/// The working files, in the given order, that no index entry tracks.
pub open spec fn untracked_of(s: Seq<EntryView>, files: Seq<Seq<u8>>) -> Seq<Seq<u8>>
    decreases files.len(),
{
    if files.len() == 0 {
        Seq::empty()
    } else {
        let rest = untracked_of(s, files.drop_last());
        if has_path(s, files.last()) {
            rest
        } else {
            rest.push(files.last())
        }
    }
}

impl Index {
    /// The paths among `files` (repository-relative, normalized) that no
    /// entry tracks, in the given order.
    pub fn untracked(&self, files: &Vec<Vec<u8>>) -> (r: Vec<Vec<u8>>)
        ensures
            paths_view(r@) == untracked_of(self@, paths_view(files@)),
    {
        let ghost fv = paths_view(files@);
        let mut out: Vec<Vec<u8>> = Vec::new();
        let mut i: usize = 0;
        while i < files.len()
            invariant
                i <= files@.len(),
                fv == paths_view(files@),
                paths_view(out@) == untracked_of(self@, fv.subrange(0, i as int)),
            decreases files@.len() - i,
        {
            assert(fv.subrange(0, i + 1).drop_last() =~= fv.subrange(0, i as int));
            assert(fv[i as int] == files@[i as int]@);
            let ghost before = paths_view(out@);
            if self.position(files[i].as_slice()).is_none() {
                let c = copy_range(files[i].as_slice(), 0, files[i].len());
                assert(c@ =~= files@[i as int]@);
                out.push(c);
                assert(paths_view(out@) =~= before.push(fv[i as int]));
            }
            i = i + 1;
        }
        assert(fv.subrange(0, fv.len() as int) =~= fv);
        out
    }
}

} // verus!

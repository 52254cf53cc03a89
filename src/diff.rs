//! Line-oriented rendering of the differences between a staged file and its
//! working copy.

use crate::ignore::cfind;
use vstd::prelude::*;
use vstd::string::StrSliceExecFns;

verus! {

/// Whether a piece of text is common to both sides, only in the first, or
/// only in the second.
#[derive(Debug, Clone, Copy, PartialEq, Eq, Structural)]
pub enum ChunkKind {
    Equal,
    Delete,
    Insert,
}

/// The chunks that the diff of `a` against `b` consists of, in order.
pub uninterp spec fn diff_of(a: Seq<char>, b: Seq<char>) -> Seq<(ChunkKind, Seq<char>)>;

pub open spec fn chunks_view(v: Seq<(ChunkKind, String)>) -> Seq<(ChunkKind, Seq<char>)> {
    v.map_values(|c: (ChunkKind, String)| (c.0, c.1@))
}

/// Relies on `dissimilar::diff`: the chunks, each of a kind and its text,
/// that turn the first text into the second.
#[verifier::external_body]
fn text_diff(a: &str, b: &str) -> (r: Vec<(ChunkKind, String)>)
    ensures
        chunks_view(r@) == diff_of(a@, b@),
{
    dissimilar::diff(a, b)
        .into_iter()
        .map(|c| match c {
            dissimilar::Chunk::Equal(t) => (ChunkKind::Equal, t.to_string()),
            dissimilar::Chunk::Delete(t) => (ChunkKind::Delete, t.to_string()),
            dissimilar::Chunk::Insert(t) => (ChunkKind::Insert, t.to_string()),
        })
        .collect()
}

/// A line without its `\r` ending, if it has one.
pub open spec fn strip_cr(l: Seq<char>) -> Seq<char> {
    if l.len() > 0 && l.last() == '\r' {
        l.drop_last()
    } else {
        l
    }
}

/// The lines of `s` from position `from` on: split at `\n`, a `\r` before it
/// dropped, and no empty line after a final `\n`.
pub open spec fn lines_from(s: Seq<char>, from: int) -> Seq<Seq<char>>
    decreases s.len() - from,
{
    if from < 0 || from >= s.len() {
        Seq::empty()
    } else {
        let e = cfind(s, '\n', from);
        let here = seq![strip_cr(s.subrange(from, e))];
        if from <= e < s.len() {
            here + lines_from(s, e + 1)
        } else {
            here
        }
    }
}

/// Each chunk's lines, tagged with the chunk's kind, in order.
pub open spec fn rendered(chunks: Seq<(ChunkKind, Seq<char>)>) -> Seq<(ChunkKind, Seq<char>)>
    decreases chunks.len(),
{
    if chunks.len() == 0 {
        Seq::empty()
    } else {
        let c = chunks.last();
        rendered(chunks.drop_last()) + lines_from(c.1, 0).map_values(|l: Seq<char>| (c.0, l))
    }
}

fn push_lines(out: &mut Vec<(ChunkKind, String)>, kind: ChunkKind, text: &str)
    ensures
        chunks_view(final(out)@) == chunks_view(old(out)@) + lines_from(text@, 0).map_values(
            |l: Seq<char>| (kind, l),
        ),
{
    let n = text.unicode_len();
    let mut pos: usize = 0;
    let ghost tag = |l: Seq<char>| (kind, l);
    assert(lines_from(text@, 0).map_values(tag) =~= lines_from(text@, 0).map_values(|l: Seq<char>| (kind, l)));
    assert(chunks_view(out@) + lines_from(text@, 0).map_values(tag) == chunks_view(old(out)@) + lines_from(text@, 0).map_values(tag));
    while pos < n
        invariant
            n == text@.len(),
            pos <= n,
            tag == (|l: Seq<char>| (kind, l)),
            chunks_view(out@) + lines_from(text@, pos as int).map_values(tag) == chunks_view(old(out)@)
                + lines_from(text@, 0).map_values(tag),
        decreases n - pos,
    {
        let mut e: usize = pos;
        while e < n && text.get_char(e) != '\n'
            invariant
                n == text@.len(),
                pos <= e <= n,
                cfind(text@, '\n', e as int) == cfind(text@, '\n', pos as int),
            decreases n - e,
        {
            e = e + 1;
        }
        let mut line = text.substring_char(pos, e);
        let m = line.unicode_len();
        if m > 0 && line.get_char(m - 1) == '\r' {
            line = line.substring_char(0, m - 1);
        }
        assert(line@ == strip_cr(text@.subrange(pos as int, e as int)));
        let ghost before = chunks_view(out@);
        let ghost rest = lines_from(text@, pos as int);
        out.push((kind, line.to_owned()));
        assert(chunks_view(out@) =~= before.push((kind, line@)));
        if e < n {
            pos = e + 1;
            assert(rest =~= seq![line@] + lines_from(text@, pos as int));
        } else {
            pos = e;
            assert(rest =~= seq![line@]);
            assert(lines_from(text@, pos as int) =~= Seq::<Seq<char>>::empty());
        }
        assert(rest.map_values(tag) =~= seq![(kind, line@)] + lines_from(text@, pos as int).map_values(tag));
    }
    assert(lines_from(text@, pos as int).map_values(tag) =~= Seq::<(ChunkKind, Seq<char>)>::empty());
    assert(chunks_view(out@) + Seq::<(ChunkKind, Seq<char>)>::empty() =~= chunks_view(out@));
}

/// The lines of each chunk, tagged with the chunk's kind.
pub fn render_chunks(chunks: &Vec<(ChunkKind, String)>) -> (r: Vec<(ChunkKind, String)>)
    ensures
        chunks_view(r@) == rendered(chunks_view(chunks@)),
{
    let ghost cv = chunks_view(chunks@);
    let mut out: Vec<(ChunkKind, String)> = Vec::new();
    let mut i: usize = 0;
    assert(chunks_view(out@) =~= Seq::<(ChunkKind, Seq<char>)>::empty());
    while i < chunks.len()
        invariant
            i <= chunks@.len(),
            cv == chunks_view(chunks@),
            chunks_view(out@) == rendered(cv.subrange(0, i as int)),
        decreases chunks@.len() - i,
    {
        let c = &chunks[i];
        assert(cv.subrange(0, i + 1).drop_last() =~= cv.subrange(0, i as int));
        assert(cv.subrange(0, i + 1).last() == (c.0, c.1@));
        push_lines(&mut out, c.0, c.1.as_str());
        i = i + 1;
    }
    assert(cv.subrange(0, cv.len() as int) =~= cv);
    out
}

/// The lines of the diff of `staged` against `working`, each tagged as common,
/// removed or added.
pub fn diff_lines(staged: &str, working: &str) -> (r: Vec<(ChunkKind, String)>)
    ensures
        chunks_view(r@) == rendered(diff_of(staged@, working@)),
{
    let chunks = text_diff(staged, working);
    render_chunks(&chunks)
}

} // verus!

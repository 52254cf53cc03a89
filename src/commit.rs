//! Commit objects: the text record that names a tree, its parents and its
//! author, and the parsing of its header lines.

use crate::codec::{
    copy_range, find_byte, find_from, from_hex, hex_text, hex_ascii, lemma_find_from_shift, push_all,
    push_decimal, decimal, unhex,
};
use crate::config::{lookup, Config};
use crate::error::RitError;
use crate::index::{entries_view, Index};
use crate::object::{after_all, after_store, object_id, payload, read_object, store_extends, store_object, ObjectKind, ObjectStore};
use crate::tree::{hashes_valid, root_tree_content, root_written, starts_with, write_tree};
use vstd::prelude::*;

verus! {

/// `"tree "`
pub open spec fn tree_tag() -> Seq<u8> {
    seq![116u8, 114, 101, 101, 32]
}

/// `"parent "`
pub open spec fn parent_tag() -> Seq<u8> {
    seq![112u8, 97, 114, 101, 110, 116, 32]
}

/// `"author "`
pub open spec fn author_tag() -> Seq<u8> {
    seq![97u8, 117, 116, 104, 111, 114, 32]
}

/// `"committer "`
pub open spec fn committer_tag() -> Seq<u8> {
    seq![99u8, 111, 109, 109, 105, 116, 116, 101, 114, 32]
}

/// `"user.name"`
pub open spec fn name_key() -> Seq<u8> {
    seq![117u8, 115, 101, 114, 46, 110, 97, 109, 101]
}

/// `"user.email"`
pub open spec fn email_key() -> Seq<u8> {
    seq![117u8, 115, 101, 114, 46, 101, 109, 97, 105, 108]
}

/// The author name used when none is configured: `"User"`.
pub open spec fn default_name() -> Seq<u8> {
    seq![85u8, 115, 101, 114]
}

/// The email used when none is configured: `"user@example.com"`.
pub open spec fn default_email() -> Seq<u8> {
    seq![117u8, 115, 101, 114, 64, 101, 120, 97, 109, 112, 108, 101, 46, 99, 111, 109]
}

/// The time-zone offset written after the timestamp: `" +0530"`.
pub open spec fn tz_suffix() -> Seq<u8> {
    seq![32u8, 43, 48, 53, 51, 48]
}

/// One `parent <hash>` line per parent, in order.
pub open spec fn parent_lines(parents: Seq<Seq<u8>>) -> Seq<u8>
    decreases parents.len(),
{
    if parents.len() == 0 {
        Seq::empty()
    } else {
        parent_lines(parents.drop_last()) + parent_tag() + parents.last() + seq![10u8]
    }
}

/// `"<name> <<email>> <seconds> +0530"`
pub open spec fn signature(name: Seq<u8>, email: Seq<u8>, ts: nat) -> Seq<u8> {
    name + seq![32u8, 60] + email + seq![62u8, 32] + decimal(ts) + tz_suffix()
}

pub open spec fn value_or(v: Option<Seq<u8>>, d: Seq<u8>) -> Seq<u8> {
    match v {
        Some(x) => x,
        None => d,
    }
}

/// The text of a commit object.
pub open spec fn commit_text(
    tree: Seq<u8>,
    parents: Seq<Seq<u8>>,
    message: Seq<u8>,
    config: Seq<(Seq<u8>, Seq<u8>)>,
    ts: nat,
) -> Seq<u8> {
    let sig = signature(
        value_or(lookup(config, name_key()), default_name()),
        value_or(lookup(config, email_key()), default_email()),
        ts,
    );
    tree_tag() + tree + seq![10u8] + parent_lines(parents) + author_tag() + sig + seq![10u8]
        + committer_tag() + sig + seq![10u8, 10] + message
}

/// Builds the text of a commit: its tree, one `parent` line per parent hash
/// in the given order, author and committer lines signed with the configured
/// `user.name` and `user.email` (or `User` and `user@example.com`) at
/// `timestamp`, a blank line and the message.
pub fn build_commit_content(
    tree_hash: &[u8],
    parent_hashes: &Vec<Vec<u8>>,
    message: &[u8],
    config: &Config,
    timestamp: u64,
) -> (r: Vec<u8>)
    ensures
        r@ == commit_text(
            tree_hash@,
            parent_hashes@.map_values(|p: Vec<u8>| p@),
            message@,
            config@,
            timestamp as nat,
        ),
{
    let ghost ps = parent_hashes@.map_values(|p: Vec<u8>| p@);
    let name = match config.get(vec![117u8, 115, 101, 114, 46, 110, 97, 109, 101].as_slice()) {
        Some(v) => v,
        None => vec![85u8, 115, 101, 114],
    };
    let email = match config.get(vec![117u8, 115, 101, 114, 46, 101, 109, 97, 105, 108].as_slice()) {
        Some(v) => v,
        None => vec![117u8, 115, 101, 114, 64, 101, 120, 97, 109, 112, 108, 101, 46, 99, 111, 109],
    };
    let mut out: Vec<u8> = vec![116u8, 114, 101, 101, 32];
    push_all(&mut out, tree_hash);
    out.push(10);
    let mut i: usize = 0;
    while i < parent_hashes.len()
        invariant
            i <= parent_hashes@.len(),
            ps == parent_hashes@.map_values(|p: Vec<u8>| p@),
            out@ == tree_tag() + tree_hash@ + seq![10u8] + parent_lines(ps.subrange(0, i as int)),
        decreases parent_hashes@.len() - i,
    {
        push_all(&mut out, vec![112u8, 97, 114, 101, 110, 116, 32].as_slice());
        push_all(&mut out, parent_hashes[i].as_slice());
        out.push(10);
        assert(ps.subrange(0, i + 1).drop_last() =~= ps.subrange(0, i as int));
        assert(out@ =~= tree_tag() + tree_hash@ + seq![10u8] + parent_lines(ps.subrange(0, i + 1)));
        i = i + 1;
    }
    assert(ps.subrange(0, ps.len() as int) =~= ps);
    let mut sig: Vec<u8> = copy_range(name.as_slice(), 0, name.len());
    push_all(&mut sig, vec![32u8, 60].as_slice());
    push_all(&mut sig, email.as_slice());
    push_all(&mut sig, vec![62u8, 32].as_slice());
    push_decimal(&mut sig, timestamp);
    push_all(&mut sig, vec![32u8, 43, 48, 53, 51, 48].as_slice());
    push_all(&mut out, vec![97u8, 117, 116, 104, 111, 114, 32].as_slice());
    push_all(&mut out, sig.as_slice());
    out.push(10);
    push_all(&mut out, vec![99u8, 111, 109, 109, 105, 116, 116, 101, 114, 32].as_slice());
    push_all(&mut out, sig.as_slice());
    out.push(10);
    out.push(10);
    push_all(&mut out, message);
    proof {
        assert(sig@ =~= signature(
            value_or(lookup(config@, name_key()), default_name()),
            value_or(lookup(config@, email_key()), default_email()),
            timestamp as nat,
        ));
    }
    assert(out@ =~= commit_text(tree_hash@, ps, message@, config@, timestamp as nat));
    out
}

} // verus!

verus! {

/// The hex texts of the `parent` lines of a commit's header, in order; the
/// header ends at the first empty line.
pub open spec fn parents_from(text: Seq<u8>) -> Seq<Seq<u8>>
    decreases text.len(),
{
    if text.len() == 0 {
        Seq::empty()
    } else {
        let p = find_from(text, 10, 0);
        let line = text.subrange(0, p);
        if line.len() == 0 {
            Seq::empty()
        } else {
            let here = if starts_with(line, parent_tag()) {
                seq![line.subrange(7, line.len() as int)]
            } else {
                Seq::empty()
            };
            if 0 <= p < text.len() {
                here + parents_from(text.subrange(p + 1, text.len() as int))
            } else {
                here
            }
        }
    }
}

/// The hex text of the first `tree` line of a commit's header.
pub open spec fn tree_from(text: Seq<u8>) -> Option<Seq<u8>>
    decreases text.len(),
{
    if text.len() == 0 {
        None
    } else {
        let p = find_from(text, 10, 0);
        let line = text.subrange(0, p);
        if line.len() == 0 {
            None
        } else if starts_with(line, tree_tag()) {
            Some(line.subrange(5, line.len() as int))
        } else if 0 <= p < text.len() {
            tree_from(text.subrange(p + 1, text.len() as int))
        } else {
            None
        }
    }
}

pub open spec fn all_hash_texts(s: Seq<Seq<u8>>) -> bool {
    forall|i: int| 0 <= i < s.len() ==> crate::index::valid_hash_text(#[trigger] s[i])
}

pub open spec fn decoded(t: Seq<u8>) -> Seq<u8> {
    match unhex(t) {
        Some(v) => v,
        None => Seq::empty(),
    }
}

/// The parents of the commit stored under `id`, as raw identities; `None`
/// when it is not stored, has no header, or names a parent by other than 40
/// hex digits.
pub open spec fn commit_parents(store: Map<Seq<u8>, Seq<u8>>, id: Seq<u8>) -> Option<Seq<Seq<u8>>> {
    if !store.contains_key(id) {
        None
    } else {
        match payload(store[id]) {
            None => None,
            Some(c) => if all_hash_texts(parents_from(c)) {
                Some(parents_from(c).map_values(|t: Seq<u8>| decoded(t)))
            } else {
                None
            },
        }
    }
}

/// The root tree of the commit stored under `id`, as a raw identity.
pub open spec fn commit_tree(store: Map<Seq<u8>, Seq<u8>>, id: Seq<u8>) -> Option<Seq<u8>> {
    if !store.contains_key(id) {
        None
    } else {
        match payload(store[id]) {
            None => None,
            Some(c) => match tree_from(c) {
                Some(t) => if crate::index::valid_hash_text(t) {
                    Some(decoded(t))
                } else {
                    None
                },
                None => None,
            },
        }
    }
}

pub open spec fn ids_view(v: Seq<Vec<u8>>) -> Seq<Seq<u8>> {
    v.map_values(|x: Vec<u8>| x@)
}

/// The hex texts of the `parent` lines of a commit's header.
pub fn parent_lines_of(content: &[u8]) -> (r: Vec<Vec<u8>>)
    ensures
        ids_view(r@) == parents_from(content@),
{
    let mut out: Vec<Vec<u8>> = Vec::new();
    let mut pos: usize = 0;
    assert(content@.subrange(0, content@.len() as int) =~= content@);
    assert(ids_view(out@) =~= Seq::<Seq<u8>>::empty());
    while pos < content.len()
        invariant
            pos <= content@.len(),
            ids_view(out@) + parents_from(content@.subrange(pos as int, content@.len() as int))
                == parents_from(content@),
        decreases content@.len() - pos,
    {
        let ghost rest = content@.subrange(pos as int, content@.len() as int);
        let end = find_byte(content, 10, pos);
        proof {
            lemma_find_from_shift(content@, 10, pos as int, 0);
        }
        let line = copy_range(content, pos, end);
        assert(line@ =~= rest.subrange(0, end - pos));
        if line.len() == 0 {
            assert(ids_view(out@) + Seq::<Seq<u8>>::empty() =~= ids_view(out@));
            return out;
        }
        let ghost before = ids_view(out@);
        let tag = vec![112u8, 97, 114, 101, 110, 116, 32];
        assert(tag@ =~= parent_tag());
        if crate::tree::has_prefix(line.as_slice(), tag.as_slice()) {
            let t = copy_range(line.as_slice(), 7, line.len());
            out.push(t);
            assert(ids_view(out@) =~= before + seq![line@.subrange(7, line@.len() as int)]);
        } else {
            assert(ids_view(out@) =~= before + Seq::<Seq<u8>>::empty());
        }
        if end < content.len() {
            assert(rest.subrange(end - pos + 1, rest.len() as int) =~= content@.subrange(
                end + 1,
                content@.len() as int,
            ));
            pos = end + 1;
        } else {
            pos = end;
            assert(content@.subrange(pos as int, content@.len() as int) =~= Seq::<u8>::empty());
        }
    }
    assert(content@.subrange(pos as int, content@.len() as int) =~= Seq::<u8>::empty());
    assert(ids_view(out@) + Seq::<Seq<u8>>::empty() =~= ids_view(out@));
    out
}

/// The hex text of the `tree` line of a commit's header.
pub fn tree_line_of(content: &[u8]) -> (r: Option<Vec<u8>>)
    ensures
        match r {
            Some(t) => tree_from(content@) == Some(t@),
            None => tree_from(content@) is None,
        },
{
    let mut pos: usize = 0;
    assert(content@.subrange(0, content@.len() as int) =~= content@);
    while pos < content.len()
        invariant
            pos <= content@.len(),
            tree_from(content@.subrange(pos as int, content@.len() as int)) == tree_from(content@),
        decreases content@.len() - pos,
    {
        let ghost rest = content@.subrange(pos as int, content@.len() as int);
        let end = find_byte(content, 10, pos);
        proof {
            lemma_find_from_shift(content@, 10, pos as int, 0);
        }
        let line = copy_range(content, pos, end);
        assert(line@ =~= rest.subrange(0, end - pos));
        if line.len() == 0 {
            return None;
        }
        let tag = vec![116u8, 114, 101, 101, 32];
        assert(tag@ =~= tree_tag());
        if crate::tree::has_prefix(line.as_slice(), tag.as_slice()) {
            return Some(copy_range(line.as_slice(), 5, line.len()));
        }
        if end < content.len() {
            assert(rest.subrange(end - pos + 1, rest.len() as int) =~= content@.subrange(
                end + 1,
                content@.len() as int,
            ));
            pos = end + 1;
        } else {
            return None;
        }
    }
    None
}

/// Decodes hex hash texts into raw identities; `None` if one is not 40 hex digits.
fn decode_hashes(texts: &Vec<Vec<u8>>) -> (r: Option<Vec<Vec<u8>>>)
    ensures
        match r {
            Some(v) => all_hash_texts(ids_view(texts@)) && ids_view(v@) == ids_view(texts@).map_values(
                |t: Seq<u8>| decoded(t),
            ),
            None => !all_hash_texts(ids_view(texts@)),
        },
{
    let ghost tv = ids_view(texts@);
    let mut out: Vec<Vec<u8>> = Vec::new();
    let mut i: usize = 0;
    while i < texts.len()
        invariant
            i <= texts@.len(),
            tv == ids_view(texts@),
            all_hash_texts(tv.subrange(0, i as int)),
            ids_view(out@) == tv.subrange(0, i as int).map_values(|t: Seq<u8>| decoded(t)),
        decreases texts@.len() - i,
    {
        assert(tv[i as int] == texts@[i as int]@);
        if !crate::index::is_hash_text(texts[i].as_slice()) {
            return None;
        }
        let v = match from_hex(texts[i].as_slice()) {
            Some(v) => v,
            None => Vec::new(),
        };
        let ghost before = ids_view(out@);
        assert(decoded(tv[i as int]) == v@);
        out.push(v);
        assert(ids_view(out@) =~= before.push(decoded(tv[i as int])));
        assert(tv.subrange(0, i + 1) =~= tv.subrange(0, i as int).push(tv[i as int]));
        assert(ids_view(out@) =~= tv.subrange(0, i + 1).map_values(|t: Seq<u8>| decoded(t)));
        i = i + 1;
    }
    assert(tv.subrange(0, tv.len() as int) =~= tv);
    Some(out)
}

/// The parents of a stored commit, as raw identities, in declaration order.
/// Fails with `NotFound` when the commit is not stored and with
/// `InvalidData` when it has no header or a parent is not 40 hex digits.
pub fn parents_of(store: &ObjectStore, id: &[u8]) -> (r: Result<Vec<Vec<u8>>, RitError>)
    requires
        store.wf(),
    ensures
        match r {
            Ok(v) => commit_parents(store@, id@) == Some(ids_view(v@)),
            Err(e) => commit_parents(store@, id@) is None && (e == RitError::NotFound
                <==> !store@.contains_key(id@)) && e.is_read_error(),
        },
{
    let content = read_object(store, id)?;
    let texts = parent_lines_of(content.as_slice());
    match decode_hashes(&texts) {
        Some(v) => Ok(v),
        None => Err(RitError::InvalidData),
    }
}

/// The root tree of a stored commit, as a raw identity. Fails with
/// `NotFound` when the commit is not stored and with `InvalidData` when it
/// has no header or no `tree` line of 40 hex digits.
pub fn tree_of(store: &ObjectStore, id: &[u8]) -> (r: Result<Vec<u8>, RitError>)
    requires
        store.wf(),
    ensures
        match r {
            Ok(t) => commit_tree(store@, id@) == Some(t@),
            Err(e) => commit_tree(store@, id@) is None && (e == RitError::NotFound
                <==> !store@.contains_key(id@)) && e.is_read_error(),
        },
{
    let content = read_object(store, id)?;
    match tree_line_of(content.as_slice()) {
        Some(t) => {
            if crate::index::is_hash_text(t.as_slice()) {
                match from_hex(t.as_slice()) {
                    Some(v) => Ok(v),
                    None => Err(RitError::InvalidData),
                }
            } else {
                Err(RitError::InvalidData)
            }
        },
        None => Err(RitError::InvalidData),
    }
}

/// The text of the commit that records the staged entries `es`.
pub open spec fn commit_record(
    es: Seq<crate::index::EntryView>,
    parents: Seq<Seq<u8>>,
    message: Seq<u8>,
    config: Seq<(Seq<u8>, Seq<u8>)>,
    ts: nat,
) -> Seq<u8> {
    commit_text(
        hex_ascii(object_id(ObjectKind::Tree, root_tree_content(es))),
        parents.map_values(|p: Seq<u8>| hex_ascii(p)),
        message,
        config,
        ts,
    )
}

/// Records the staged entries as a commit with the given parents (raw
/// identities, in order): writes the trees and the commit object and
/// returns the commit's identity, or `None` when nothing is staged. Fails
/// with `InvalidData`, storing nothing, when a staged hash is not 40 hex
/// digits.
pub fn commit_index(
    store: &mut ObjectStore,
    index: &Index,
    parents: &Vec<Vec<u8>>,
    message: &[u8],
    config: &Config,
    timestamp: u64,
) -> (r: Result<Option<Vec<u8>>, RitError>)
    requires
        old(store).wf(),
    ensures
        store_extends(final(store), old(store)),
        match r {
            Ok(None) => index@.len() == 0 && final(store)@ == old(store)@,
            Ok(Some(id)) => index@.len() > 0 && hashes_valid(index@) && id@ == object_id(
                ObjectKind::Commit,
                commit_record(index@, ids_view(parents@), message@, config@, timestamp as nat),
            ) && final(store)@.contains_key(id@) && final(store)@ == after_store(
                after_all(old(store)@, root_written(index@)),
                ObjectKind::Commit,
                commit_record(index@, ids_view(parents@), message@, config@, timestamp as nat),
            ),
            Err(e) => index@.len() > 0 && !hashes_valid(index@) && e == RitError::InvalidData
                && final(store)@ == old(store)@,
        },
{
    if index.is_empty() {
        proof {
            crate::object::lemma_store_extends_refl(store);
        }
        return Ok(None);
    }
    let tree = write_tree(store, index.entries())?;
    let ghost mid = *store;
    let tree_hex = hex_text(tree.as_slice());
    let mut parent_hex: Vec<Vec<u8>> = Vec::new();
    let ghost pv = ids_view(parents@);
    let mut i: usize = 0;
    while i < parents.len()
        invariant
            i <= parents@.len(),
            pv == ids_view(parents@),
            ids_view(parent_hex@) == pv.subrange(0, i as int).map_values(|p: Seq<u8>| hex_ascii(p)),
        decreases parents@.len() - i,
    {
        let ghost before = ids_view(parent_hex@);
        let h = hex_text(parents[i].as_slice());
        assert(pv[i as int] == parents@[i as int]@);
        parent_hex.push(h);
        assert(ids_view(parent_hex@) =~= before.push(hex_ascii(pv[i as int])));
        assert(pv.subrange(0, i + 1) =~= pv.subrange(0, i as int).push(pv[i as int]));
        assert(ids_view(parent_hex@) =~= pv.subrange(0, i + 1).map_values(|p: Seq<u8>| hex_ascii(p)));
        i = i + 1;
    }
    assert(pv.subrange(0, pv.len() as int) =~= pv);
    let content = build_commit_content(tree_hex.as_slice(), &parent_hex, message, config, timestamp);
    assert(parent_hex@.map_values(|p: Vec<u8>| p@) =~= ids_view(parent_hex@));
    let id = store_object(store, ObjectKind::Commit, content.as_slice());
    proof {
        assert forall|k: Seq<u8>| #[trigger] old(store)@.contains_key(k) implies store@.contains_key(k)
            && store@[k] == old(store)@[k] by {
            assert(mid@.contains_key(k));
        }
        assert forall|i: int| 0 <= i < old(store).spec_len() implies #[trigger] store.id_at(i)
            == old(store).id_at(i) by {
            assert(mid.id_at(i) == old(store).id_at(i));
        }
    }
    Ok(Some(id))
}

} // verus!

verus! {

pub open spec fn no_newline(s: Seq<u8>) -> bool {
    forall|j: int| 0 <= j < s.len() ==> s[j] != 10
}

proof fn lemma_parents_line(line: Seq<u8>, rest: Seq<u8>)
    requires
        line.len() > 0,
        no_newline(line),
    ensures
        parents_from(line + seq![10u8] + rest) == (if starts_with(line, parent_tag()) {
            seq![line.subrange(7, line.len() as int)]
        } else {
            Seq::empty()
        }) + parents_from(rest),
{
    let s = line + seq![10u8] + rest;
    assert(s[line.len() as int] == 10);
    assert forall|j: int| 0 <= j < line.len() implies s[j] != 10 by {
        assert(s[j] == line[j]);
    }
    crate::codec::lemma_find_from_at(s, 10, line.len() as int, 0);
    assert(s.subrange(0, line.len() as int) =~= line);
    assert(s.subrange(line.len() as int + 1, s.len() as int) =~= rest);
}

proof fn lemma_parent_lines_front(ps: Seq<Seq<u8>>)
    requires
        ps.len() > 0,
    ensures
        parent_lines(ps) == parent_tag() + ps[0] + seq![10u8] + parent_lines(ps.drop_first()),
    decreases ps.len(),
{
    if ps.len() == 1 {
        assert(ps.drop_last() =~= Seq::<Seq<u8>>::empty());
        assert(ps.drop_first() =~= Seq::<Seq<u8>>::empty());
        assert(parent_lines(ps) =~= parent_tag() + ps[0] + seq![10u8] + parent_lines(ps.drop_first()));
    } else {
        lemma_parent_lines_front(ps.drop_last());
        assert(ps.drop_last().drop_first() =~= ps.drop_first().drop_last());
        assert(ps.drop_first().last() == ps.last());
        assert(ps.drop_last()[0] == ps[0]);
        assert(parent_lines(ps) =~= parent_tag() + ps[0] + seq![10u8] + parent_lines(ps.drop_first()));
    }
}

proof fn lemma_parents_of_lines(ps: Seq<Seq<u8>>, rest: Seq<u8>)
    requires
        forall|i: int| 0 <= i < ps.len() ==> no_newline(#[trigger] ps[i]),
    ensures
        parents_from(parent_lines(ps) + rest) == ps + parents_from(rest),
    decreases ps.len(),
{
    if ps.len() == 0 {
        assert(parent_lines(ps) + rest =~= rest);
        assert(ps + parents_from(rest) =~= parents_from(rest));
    } else {
        lemma_parent_lines_front(ps);
        let line = parent_tag() + ps[0];
        assert(no_newline(ps[0]));
        assert(no_newline(line)) by {
            assert forall|j: int| 0 <= j < line.len() implies line[j] != 10 by {
                if j >= 7 {
                    assert(line[j] == ps[0][j - 7]);
                }
            }
        }
        let tail = parent_lines(ps.drop_first()) + rest;
        assert(parent_lines(ps) + rest =~= line + seq![10u8] + tail);
        lemma_parents_line(line, tail);
        assert(line.subrange(0, 7) =~= parent_tag());
        assert(line.subrange(7, line.len() as int) =~= ps[0]);
        assert forall|i: int| 0 <= i < ps.drop_first().len() implies no_newline(#[trigger] ps.drop_first()[i]) by {
            assert(ps.drop_first()[i] == ps[i + 1]);
        }
        lemma_parents_of_lines(ps.drop_first(), rest);
        assert(seq![ps[0]] + (ps.drop_first() + parents_from(rest)) =~= ps + parents_from(rest));
    }
}

/// Commit header round trip: the parents read back from a commit's text are
/// the ones it was built with, in the same order, when no hash, name or email
/// holds a line break. A merge commit thus reads back as receiver, giver.
pub proof fn lemma_commit_parents_round_trip(
    tree: Seq<u8>,
    parents: Seq<Seq<u8>>,
    message: Seq<u8>,
    config: Seq<(Seq<u8>, Seq<u8>)>,
    ts: nat,
)
    requires
        no_newline(tree),
        forall|i: int| 0 <= i < parents.len() ==> no_newline(#[trigger] parents[i]),
        no_newline(value_or(lookup(config, name_key()), default_name())),
        no_newline(value_or(lookup(config, email_key()), default_email())),
    ensures
        parents_from(commit_text(tree, parents, message, config, ts)) == parents,
{
    let name = value_or(lookup(config, name_key()), default_name());
    let email = value_or(lookup(config, email_key()), default_email());
    let sig = signature(name, email, ts);
    crate::object::lemma_decimal_digits(ts);
    assert(no_newline(sig)) by {
        assert forall|j: int| 0 <= j < sig.len() implies sig[j] != 10 by {
            let n1 = name.len() as int;
            let e1 = n1 + 2 + email.len();
            let d1 = e1 + 2 + decimal(ts).len();
            if j < n1 {
                assert(sig[j] == name[j]);
            } else if n1 + 2 <= j < e1 {
                assert(sig[j] == email[j - n1 - 2]);
            } else if e1 + 2 <= j < d1 {
                assert(sig[j] == decimal(ts)[j - e1 - 2]);
            }
        }
    }
    let author = author_tag() + sig;
    let committer = committer_tag() + sig;
    assert(no_newline(author)) by {
        assert forall|j: int| 0 <= j < author.len() implies author[j] != 10 by {
            if j >= 7 {
                assert(author[j] == sig[j - 7]);
            }
        }
    }
    assert(no_newline(committer)) by {
        assert forall|j: int| 0 <= j < committer.len() implies committer[j] != 10 by {
            if j >= 10 {
                assert(committer[j] == sig[j - 10]);
            }
        }
    }
    let tail = seq![10u8] + message;
    let r2 = committer + seq![10u8] + tail;
    let r1 = author + seq![10u8] + r2;
    let tline = tree_tag() + tree;
    assert(no_newline(tline)) by {
        assert forall|j: int| 0 <= j < tline.len() implies tline[j] != 10 by {
            if j >= 5 {
                assert(tline[j] == tree[j - 5]);
            }
        }
    }
    assert(commit_text(tree, parents, message, config, ts) =~= tline + seq![10u8] + (parent_lines(parents)
        + r1));
    lemma_parents_line(tline, parent_lines(parents) + r1);
    assert(!starts_with(tline, parent_tag())) by {
        if tline.len() >= 7 {
            assert(tline[0] != parent_tag()[0]);
            assert(tline.subrange(0, 7)[0] == tline[0]);
        }
    }
    lemma_parents_of_lines(parents, r1);
    lemma_parents_line(author, r2);
    assert(!starts_with(author, parent_tag())) by {
        assert(author.subrange(0, 7)[0] == author[0]);
    }
    lemma_parents_line(committer, tail);
    assert(!starts_with(committer, parent_tag())) by {
        assert(committer.subrange(0, 7)[0] == committer[0]);
    }
    assert(find_from(tail, 10, 0) == 0);
    assert(tail.subrange(0, 0) =~= Seq::<u8>::empty());
    assert(parents_from(tail) =~= Seq::<Seq<u8>>::empty());
    assert(Seq::<Seq<u8>>::empty() + (parents + (Seq::<Seq<u8>>::empty() + (Seq::<Seq<u8>>::empty()
        + Seq::<Seq<u8>>::empty()))) =~= parents);
}

} // verus!

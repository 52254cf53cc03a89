//! History display: the first-parent chain from a commit, and the parts of a
//! commit shown for each entry.

use crate::codec::{copy_range, find_byte, find_from};
use crate::commit::{commit_parents, ids_view, parents_of};
use crate::error::RitError;
use crate::object::ObjectStore;
use vstd::prelude::*;

verus! {

/// The first-parent chain from `x`: `x`, its first parent, that commit's
/// first parent, and so on, until a root commit or `fuel` commits; `None`
/// when a commit on the way cannot be read.
pub open spec fn chain_from(store: Map<Seq<u8>, Seq<u8>>, x: Seq<u8>, fuel: nat) -> Option<Seq<Seq<u8>>>
    decreases fuel,
{
    if fuel == 0 {
        Some(Seq::empty())
    } else {
        match commit_parents(store, x) {
            None => None,
            Some(ps) => if ps.len() == 0 {
                Some(seq![x])
            } else {
                match chain_from(store, ps[0], (fuel - 1) as nat) {
                    None => None,
                    Some(rest) => Some(seq![x] + rest),
                }
            },
        }
    }
}

/// The commits that `log` shows from `start`, newest first: the first-parent
/// chain, cut at the number of stored objects, which a chain cannot exceed
/// without repeating.
pub fn first_parent_chain(store: &ObjectStore, start: &[u8]) -> (r: Result<Vec<Vec<u8>>, RitError>)
    requires
        store.wf(),
    ensures
        match r {
            Ok(v) => chain_from(store@, start@, store.spec_len()) == Some(ids_view(v@)),
            Err(e) => chain_from(store@, start@, store.spec_len()) is None && e.is_read_error(),
        },
{
    let s0 = copy_range(start, 0, start.len());
    assert(s0@ =~= start@);
    let mut cur = s0;
    let mut out: Vec<Vec<u8>> = Vec::new();
    let mut fuel: usize = store.len();
    let ghost total = store.spec_len();
    assert(ids_view(out@) =~= Seq::<Seq<u8>>::empty());
    while fuel > 0
        invariant
            store.wf(),
            total == store.spec_len(),
            match chain_from(store@, cur@, fuel as nat) {
                Some(rest) => chain_from(store@, start@, total) == Some(ids_view(out@) + rest),
                None => chain_from(store@, start@, total) is None,
            },
        decreases fuel,
    {
        let ps = match parents_of(store, cur.as_slice()) {
            Ok(ps) => ps,
            Err(e) => {
                assert(chain_from(store@, cur@, fuel as nat) is None);
                return Err(e);
            },
        };
        let ghost before = ids_view(out@);
        let c = copy_range(cur.as_slice(), 0, cur.len());
        assert(c@ =~= cur@);
        out.push(c);
        assert(ids_view(out@) =~= before.push(cur@));
        if ps.len() == 0 {
            assert(chain_from(store@, cur@, fuel as nat) == Some(seq![cur@]));
            assert(ids_view(out@) =~= before + seq![cur@]);
            return Ok(out);
        }
        let ghost old_cur = cur@;
        assert(ids_view(ps@)[0] == ps@[0]@);
        let next = copy_range(ps[0].as_slice(), 0, ps[0].len());
        assert(next@ =~= ps@[0]@);
        cur = next;
        fuel = fuel - 1;
        proof {
            match chain_from(store@, cur@, fuel as nat) {
                Some(rest) => {
                    assert(before + (seq![old_cur] + rest) =~= ids_view(out@) + rest);
                },
                None => {},
            }
        }
    }
    assert(ids_view(out@) + Seq::<Seq<u8>>::empty() =~= ids_view(out@));
    Ok(out)
}

} // verus!

verus! {

/// The message of a commit's text: what follows its first blank line, or
/// nothing when it has none.
pub open spec fn message_of(c: Seq<u8>) -> Seq<u8>
    decreases c.len(),
{
    if c.len() < 2 {
        Seq::empty()
    } else if c[0] == 10 && c[1] == 10 {
        c.subrange(2, c.len() as int)
    } else {
        message_of(c.drop_first())
    }
}

/// The message of a commit's text.
pub fn commit_message(content: &[u8]) -> (r: Vec<u8>)
    ensures
        r@ == message_of(content@),
{
    let mut i: usize = 0;
    assert(content@.subrange(0, content@.len() as int) =~= content@);
    while i < content.len() && content.len() - i > 1
        invariant
            i <= content@.len(),
            message_of(content@.subrange(i as int, content@.len() as int)) == message_of(content@),
        decreases content@.len() - i,
    {
        if content[i] == 10 && content[i + 1] == 10 {
            let r = copy_range(content, i + 2, content.len());
            assert(r@ =~= content@.subrange(i as int, content@.len() as int).subrange(
                2,
                content@.len() - i,
            ));
            return r;
        }
        assert(content@.subrange(i as int, content@.len() as int).drop_first() =~= content@.subrange(
            i + 1,
            content@.len() as int,
        ));
        i = i + 1;
    }
    Vec::new()
}

} // verus!

//! Merging: the merge-base search over the commit graph and the path-level
//! three-way reconciliation of tree snapshots.

use crate::codec::{bytes_eq, copy_range, hex_ascii, hex_text};
use vstd::seq_lib::{to_multiset_build, to_multiset_insert};
use crate::commit::{build_commit_content, commit_parents, commit_tree, ids_view, parents_of, tree_of};
use crate::config::Config;
use crate::error::RitError;
use crate::index::{entries_view, unique_paths, EntryView, IndexEntry};
use crate::mode::FileMode;
use crate::object::{after_all, after_store, object_id, store_extends, store_object, ObjectKind, ObjectStore};
use crate::tree::{flat_tree, flats_view, hashes_valid, read_tree_entries, root_written, write_tree, FlatEntry, FlatView};
use vstd::prelude::*;

verus! {

/// The parents of a stored commit, or none when they cannot be read.
pub open spec fn parents_spec(store: Map<Seq<u8>, Seq<u8>>, x: Seq<u8>) -> Seq<Seq<u8>> {
    match commit_parents(store, x) {
        Some(ps) => ps,
        None => Seq::empty(),
    }
}

/// `to` is `from` or is reached from it in at most `n` steps to a parent.
pub open spec fn reaches(store: Map<Seq<u8>, Seq<u8>>, from: Seq<u8>, to: Seq<u8>, n: nat) -> bool
    decreases n,
{
    from == to || (n > 0 && exists|i: int|
        0 <= i < parents_spec(store, from).len() && reaches(
            store,
            #[trigger] parents_spec(store, from)[i],
            to,
            (n - 1) as nat,
        ))
}

/// `to` lies in the history of `from`: `from` itself or one of its ancestors.
pub open spec fn in_history(store: Map<Seq<u8>, Seq<u8>>, from: Seq<u8>, to: Seq<u8>) -> bool {
    exists|n: nat| reaches(store, from, to, n)
}

/// Every parent of a member of `vv` is in `vv` or in `pend`.
pub open spec fn closed_under(store: Map<Seq<u8>, Seq<u8>>, vv: Seq<Seq<u8>>, pend: Seq<Seq<u8>>) -> bool {
    forall|x: Seq<u8>, y: Seq<u8>|
        #[trigger] vv.contains(x) && #[trigger] parents_spec(store, x).contains(y) ==> vv.contains(y)
            || pend.contains(y)
}

pub proof fn lemma_reaches_extend(store: Map<Seq<u8>, Seq<u8>>, from: Seq<u8>, h: Seq<u8>, p: Seq<u8>, n: nat)
    requires
        reaches(store, from, h, n),
        parents_spec(store, h).contains(p),
    ensures
        reaches(store, from, p, n + 1),
    decreases n,
{
    if from == h {
        let i = choose|i: int| 0 <= i < parents_spec(store, h).len() && parents_spec(store, h)[i] == p;
        assert(reaches(store, parents_spec(store, from)[i], p, n));
    } else {
        let i = choose|i: int|
            0 <= i < parents_spec(store, from).len() && reaches(
                store,
                #[trigger] parents_spec(store, from)[i],
                h,
                (n - 1) as nat,
            );
        lemma_reaches_extend(store, parents_spec(store, from)[i], h, p, (n - 1) as nat);
    }
}

pub proof fn lemma_closed_reach(store: Map<Seq<u8>, Seq<u8>>, vv: Seq<Seq<u8>>, from: Seq<u8>, x: Seq<u8>, n: nat)
    requires
        closed_under(store, vv, Seq::empty()),
        vv.contains(from),
        reaches(store, from, x, n),
    ensures
        vv.contains(x),
    decreases n,
{
    if from != x {
        let i = choose|i: int|
            0 <= i < parents_spec(store, from).len() && reaches(
                store,
                #[trigger] parents_spec(store, from)[i],
                x,
                (n - 1) as nat,
            );
        let p = parents_spec(store, from)[i];
        assert(parents_spec(store, from).contains(p));
        assert(vv.contains(p) || Seq::<Seq<u8>>::empty().contains(p));
        lemma_closed_reach(store, vv, p, x, (n - 1) as nat);
    }
}

proof fn lemma_unique_bound(store: &ObjectStore, vv: Seq<Seq<u8>>)
    requires
        store.wf(),
        vv.no_duplicates(),
        forall|k: int| 0 <= k < vv.len() ==> store@.contains_key(#[trigger] vv[k]),
    ensures
        vv.len() <= store.spec_len(),
{
    store.lemma_len();
    vv.unique_seq_to_set();
    assert(vv.to_set().subset_of(store@.dom())) by {
        assert forall|k: Seq<u8>| vv.to_set().contains(k) implies store@.dom().contains(k) by {
            let i = choose|i: int| 0 <= i < vv.len() && vv[i] == k;
        }
    }
    vstd::set_lib::lemma_len_subset(vv.to_set(), store@.dom());
}

fn contains_id(v: &Vec<Vec<u8>>, x: &[u8]) -> (r: bool)
    ensures
        r == ids_view(v@).contains(x@),
{
    let mut i: usize = 0;
    while i < v.len()
        invariant
            i <= v@.len(),
            forall|k: int| 0 <= k < i ==> v@[k]@ != x@,
        decreases v@.len() - i,
    {
        if bytes_eq(v[i].as_slice(), x) {
            assert(ids_view(v@)[i as int] == x@);
            return true;
        }
        i = i + 1;
    }
    assert(!ids_view(v@).contains(x@)) by {
        if ids_view(v@).contains(x@) {
            let k = choose|k: int| 0 <= k < ids_view(v@).len() && ids_view(v@)[k] == x@;
            assert(v@[k]@ == x@);
        }
    }
    false
}

fn append_ids(q: &mut Vec<Vec<u8>>, ps: &Vec<Vec<u8>>)
    ensures
        ids_view(final(q)@) == ids_view(old(q)@) + ids_view(ps@),
{
    let mut k: usize = 0;
    while k < ps.len()
        invariant
            k <= ps@.len(),
            ids_view(q@) == ids_view(old(q)@) + ids_view(ps@).subrange(0, k as int),
        decreases ps@.len() - k,
    {
        let ghost before = ids_view(q@);
        let c = copy_range(ps[k].as_slice(), 0, ps[k].len());
        assert(c@ =~= ps@[k as int]@);
        q.push(c);
        assert(ids_view(q@) =~= before.push(ids_view(ps@)[k as int]));
        assert(ids_view(ps@).subrange(0, k + 1) =~= ids_view(ps@).subrange(0, k as int).push(
            ids_view(ps@)[k as int],
        ));
        k = k + 1;
    }
    assert(ids_view(ps@).subrange(0, ps@.len() as int) =~= ids_view(ps@));
}

/// The history of `start`: every commit reachable from it through parent
/// links, each once, in breadth-first order. Fails when a commit of that
/// history is missing or its parents cannot be read.
pub fn history_of(store: &ObjectStore, start: &[u8]) -> (r: Result<Vec<Vec<u8>>, RitError>)
    requires
        store.wf(),
    ensures
        match r {
            Ok(v) => ids_view(v@).no_duplicates() && (forall|x: Seq<u8>|
                #![trigger ids_view(v@).contains(x)]
                ids_view(v@).contains(x) <==> in_history(store@, start@, x)) && (forall|x: Seq<u8>|
                #[trigger] ids_view(v@).contains(x) ==> commit_parents(store@, x) is Some),
            Err(e) => e.is_read_error() && exists|x: Seq<u8>|
                in_history(store@, start@, x) && #[trigger] commit_parents(store@, x) is None,
        },
{
    let s = copy_range(start, 0, start.len());
    assert(s@ =~= start@);
    let mut queue: Vec<Vec<u8>> = vec![s];
    let mut visited: Vec<Vec<u8>> = Vec::new();
    let mut head: usize = 0;
    proof {
        assert(reaches(store@, start@, start@, 0));
        assert(ids_view(queue@) =~= seq![start@]);
        assert(ids_view(queue@)[0] == start@);
        assert(ids_view(queue@).subrange(0, 1)[0] == start@);
    }
    while head < queue.len()
        invariant
            store.wf(),
            head <= queue@.len(),
            ids_view(visited@).no_duplicates(),
            forall|k: int|
                0 <= k < ids_view(visited@).len() ==> commit_parents(
                    store@,
                    #[trigger] ids_view(visited@)[k],
                ) is Some && store@.contains_key(ids_view(visited@)[k]),
            forall|k: int|
                0 <= k < ids_view(visited@).len() ==> in_history(
                    store@,
                    start@,
                    #[trigger] ids_view(visited@)[k],
                ),
            forall|k: int|
                0 <= k < ids_view(queue@).len() ==> in_history(store@, start@, #[trigger] ids_view(queue@)[k]),
            closed_under(store@, ids_view(visited@), ids_view(queue@).subrange(head as int, queue@.len() as int)),
            ids_view(visited@).contains(start@) || ids_view(queue@).subrange(
                head as int,
                queue@.len() as int,
            ).contains(start@),
        decreases store.spec_len() - ids_view(visited@).len(), queue@.len() - head,
    {
        proof {
            lemma_unique_bound(store, ids_view(visited@));
        }
        let ghost vv = ids_view(visited@);
        let ghost qv = ids_view(queue@);
        let ghost pend = qv.subrange(head as int, qv.len() as int);
        let h = copy_range(queue[head].as_slice(), 0, queue[head].len());
        assert(h@ =~= qv[head as int]);
        assert(pend[0] == h@);
        head = head + 1;
        let ghost pend1 = qv.subrange(head as int, qv.len() as int);
        assert(pend1 =~= pend.drop_first());
        assert forall|y: Seq<u8>| pend.contains(y) implies y == h@ || pend1.contains(y) by {
            if pend.contains(y) && y != h@ {
                let j = choose|j: int| 0 <= j < pend.len() && pend[j] == y;
                assert(pend1[j - 1] == y);
            }
        }
        if contains_id(&visited, h.as_slice()) {
            assert(closed_under(store@, vv, pend1));
        } else {
            assert(in_history(store@, start@, h@)) by {
                assert(qv[head - 1] == h@);
            }
            let ps = match parents_of(store, h.as_slice()) {
                Ok(ps) => ps,
                Err(e) => {
                    return Err(e);
                },
            };
            let ghost psv = ids_view(ps@);
            assert(parents_spec(store@, h@) == psv);
            assert(store@.contains_key(h@));
            append_ids(&mut queue, &ps);
            visited.push(h);
            proof {
                let vv2 = ids_view(visited@);
                let qv2 = ids_view(queue@);
                let pend2 = qv2.subrange(head as int, qv2.len() as int);
                assert(vv2 =~= vv.push(h@));
                assert(qv2 =~= qv + psv);
                assert(pend2 =~= pend1 + psv);
                assert forall|i: int, j: int| 0 <= i < j < vv2.len() implies vv2[i] != vv2[j] by {
                    if j == vv2.len() - 1 {
                        assert(vv.contains(vv2[i]));
                    }
                }
                assert forall|k: int| 0 <= k < qv2.len() implies in_history(store@, start@, #[trigger] qv2[k]) by {
                    if k >= qv.len() {
                        let n = choose|n: nat| reaches(store@, start@, h@, n);
                        assert(psv.contains(qv2[k])) by {
                            assert(psv[k - qv.len()] == qv2[k]);
                        }
                        lemma_reaches_extend(store@, start@, h@, qv2[k], n);
                    } else {
                        assert(qv2[k] == qv[k]);
                    }
                }
                assert forall|x: Seq<u8>, y: Seq<u8>|
                    #[trigger] vv2.contains(x) && #[trigger] parents_spec(store@, x).contains(y) implies vv2.contains(y)
                        || pend2.contains(y) by {
                    if x == h@ {
                        let j = choose|j: int| 0 <= j < psv.len() && psv[j] == y;
                        assert(pend2[pend1.len() + j] == y);
                    } else {
                        let i = choose|i: int| 0 <= i < vv2.len() && vv2[i] == x;
                        assert(vv[i] == x);
                        assert(vv.contains(x));
                        if vv.contains(y) {
                            let a = choose|a: int| 0 <= a < vv.len() && vv[a] == y;
                            assert(vv2[a] == y);
                        } else if y == h@ {
                            assert(vv2[vv.len() as int] == y);
                        } else {
                            assert(pend1.contains(y));
                            let a = choose|a: int| 0 <= a < pend1.len() && pend1[a] == y;
                            assert(pend2[a] == y);
                        }
                    }
                }
                if !vv.contains(start@) {
                    if start@ == h@ {
                        assert(vv2[vv.len() as int] == start@);
                    } else {
                        let a = choose|a: int| 0 <= a < pend1.len() && pend1[a] == start@;
                        assert(pend2[a] == start@);
                    }
                } else {
                    let a = choose|a: int| 0 <= a < vv.len() && vv[a] == start@;
                    assert(vv2[a] == start@);
                }
                assert forall|k: int| 0 <= k < vv2.len() implies commit_parents(store@, #[trigger] vv2[k]) is Some
                    && store@.contains_key(vv2[k]) && in_history(store@, start@, vv2[k]) by {
                    if k < vv.len() {
                        assert(vv2[k] == vv[k]);
                    }
                }
                lemma_unique_bound(store, vv2);
            }
        }
    }
    proof {
        let vv = ids_view(visited@);
        let qv = ids_view(queue@);
        assert(qv.subrange(head as int, qv.len() as int) =~= Seq::<Seq<u8>>::empty());
        assert forall|x: Seq<u8>| #![trigger vv.contains(x)] vv.contains(x) <==> in_history(store@, start@, x) by {
            if in_history(store@, start@, x) {
                let n = choose|n: nat| reaches(store@, start@, x, n);
                lemma_closed_reach(store@, vv, start@, x, n);
            }
            if vv.contains(x) {
                let k = choose|k: int| 0 <= k < vv.len() && vv[k] == x;
            }
        }
        assert forall|x: Seq<u8>| #[trigger] vv.contains(x) implies commit_parents(store@, x) is Some by {
            let k = choose|k: int| 0 <= k < vv.len() && vv[k] == x;
        }
    }
    Ok(visited)
}

/// Every commit in the history of `r` has readable parents.
pub open spec fn history_readable(store: Map<Seq<u8>, Seq<u8>>, r: Seq<u8>) -> bool {
    forall|x: Seq<u8>| #[trigger] in_history(store, r, x) ==> commit_parents(store, x) is Some
}

/// The breadth-first walk over parent links, continued from position `head`
/// of the queue `q` with the commits `vis` already expanded: the first queued
/// commit that lies in the history of `receiver` (`Some(Some(_))`), or
/// `Some(None)` when the queue runs out. A commit is expanded once, its
/// parents queued in declaration order; `None` when one to expand cannot be
/// read. `n` bounds how many commits can be expanded.
pub open spec fn bfs_from(
    store: Map<Seq<u8>, Seq<u8>>,
    n: nat,
    receiver: Seq<u8>,
    q: Seq<Seq<u8>>,
    head: int,
    vis: Seq<Seq<u8>>,
) -> Option<Option<Seq<u8>>>
    decreases n - vis.len(), q.len() - head,
{
    if head < 0 || head >= q.len() {
        Some(None)
    } else {
        let h = q[head];
        if in_history(store, receiver, h) {
            Some(Some(h))
        } else if vis.contains(h) {
            bfs_from(store, n, receiver, q, head + 1, vis)
        } else {
            match commit_parents(store, h) {
                None => None,
                Some(ps) => if vis.len() >= n {
                    None
                } else {
                    bfs_from(store, n, receiver, q + ps, head + 1, vis.push(h))
                },
            }
        }
    }
}

/// The merge base of `receiver` and `giver`: the first commit that the
/// breadth-first walk from `giver` meets in the history of `receiver`.
pub open spec fn merge_base(store: Map<Seq<u8>, Seq<u8>>, receiver: Seq<u8>, giver: Seq<u8>) -> Option<Option<Seq<u8>>> {
    bfs_from(store, store.dom().len(), receiver, seq![giver], 0, Seq::empty())
}

/// The merge base of `receiver` and `giver`: after collecting the history of
/// `receiver`, a breadth-first walk from `giver` returns the first commit it
/// meets that lies in that history, or `None` when the histories share no
/// commit. Fails when a commit that either walk reaches is missing or its
/// parents cannot be read.
pub fn find_common_ancestor(store: &ObjectStore, receiver: &[u8], giver: &[u8]) -> (r: Result<Option<Vec<u8>>, RitError>)
    requires
        store.wf(),
    ensures
        match r {
            Ok(Some(a)) => in_history(store@, receiver@, a@) && in_history(store@, giver@, a@),
            Ok(None) => forall|x: Seq<u8>|
                !(#[trigger] in_history(store@, receiver@, x) && in_history(store@, giver@, x)),
            Err(e) => e.is_read_error() && exists|x: Seq<u8>|
                (in_history(store@, receiver@, x) || in_history(store@, giver@, x))
                    && #[trigger] commit_parents(store@, x) is None,
        },
        r is Ok ==> history_readable(store@, receiver@),
        r matches Ok(Some(a)) ==> merge_base(store@, receiver@, giver@) == Some(Some(a@)),
        r == Ok::<Option<Vec<u8>>, RitError>(None) ==> merge_base(store@, receiver@, giver@) == Some(
            None::<Seq<u8>>,
        ),
        r is Err ==> !history_readable(store@, receiver@) || merge_base(store@, receiver@, giver@) is None,
{
    let ancestors = match history_of(store, receiver) {
        Ok(a) => a,
        Err(e) => {
            assert(!history_readable(store@, receiver@));
            return Err(e);
        },
    };
    assert(history_readable(store@, receiver@)) by {
        assert forall|x: Seq<u8>| #[trigger] in_history(store@, receiver@, x) implies commit_parents(store@, x) is Some by {
            assert(ids_view(ancestors@).contains(x));
        }
    }
    proof {
        store.lemma_len();
    }
    let ghost nn = store.spec_len();
    let ghost av = ids_view(ancestors@);
    let s = copy_range(giver, 0, giver.len());
    assert(s@ =~= giver@);
    let mut queue: Vec<Vec<u8>> = vec![s];
    let mut visited: Vec<Vec<u8>> = Vec::new();
    let mut head: usize = 0;
    proof {
        assert(reaches(store@, giver@, giver@, 0));
        assert(ids_view(queue@) =~= seq![giver@]);
        assert(ids_view(queue@)[0] == giver@);
        assert(ids_view(queue@).subrange(0, 1)[0] == giver@);
        assert(ids_view(visited@) =~= Seq::<Seq<u8>>::empty());
    }
    while head < queue.len()
        invariant
            store.wf(),
            head <= queue@.len(),
            ids_view(visited@).no_duplicates(),
            av == ids_view(ancestors@),
            nn == store.spec_len(),
            nn == store@.dom().len(),
            history_readable(store@, receiver@),
            bfs_from(store@, nn, receiver@, ids_view(queue@), head as int, ids_view(visited@)) == merge_base(
                store@,
                receiver@,
                giver@,
            ),
            forall|x: Seq<u8>| #![trigger av.contains(x)] av.contains(x) <==> in_history(store@, receiver@, x),
            forall|k: int| 0 <= k < ids_view(visited@).len() ==> !av.contains(#[trigger] ids_view(visited@)[k]),
            forall|k: int|
                0 <= k < ids_view(visited@).len() ==> commit_parents(
                    store@,
                    #[trigger] ids_view(visited@)[k],
                ) is Some && store@.contains_key(ids_view(visited@)[k]),
            forall|k: int|
                0 <= k < ids_view(visited@).len() ==> in_history(
                    store@,
                    giver@,
                    #[trigger] ids_view(visited@)[k],
                ),
            forall|k: int|
                0 <= k < ids_view(queue@).len() ==> in_history(store@, giver@, #[trigger] ids_view(queue@)[k]),
            closed_under(store@, ids_view(visited@), ids_view(queue@).subrange(head as int, queue@.len() as int)),
            ids_view(visited@).contains(giver@) || ids_view(queue@).subrange(
                head as int,
                queue@.len() as int,
            ).contains(giver@),
        decreases store.spec_len() - ids_view(visited@).len(), queue@.len() - head,
    {
        proof {
            lemma_unique_bound(store, ids_view(visited@));
        }
        let ghost vv = ids_view(visited@);
        let ghost qv = ids_view(queue@);
        let ghost pend = qv.subrange(head as int, qv.len() as int);
        let h = copy_range(queue[head].as_slice(), 0, queue[head].len());
        assert(h@ =~= qv[head as int]);
        assert(pend[0] == h@);
        head = head + 1;
        let ghost pend1 = qv.subrange(head as int, qv.len() as int);
        assert(pend1 =~= pend.drop_first());
        assert forall|y: Seq<u8>| pend.contains(y) implies y == h@ || pend1.contains(y) by {
            if pend.contains(y) && y != h@ {
                let j = choose|j: int| 0 <= j < pend.len() && pend[j] == y;
                assert(pend1[j - 1] == y);
            }
        }
        assert(in_history(store@, giver@, h@)) by {
            assert(qv[head - 1] == h@);
        }
        if contains_id(&ancestors, h.as_slice()) {
            assert(in_history(store@, receiver@, h@));
            return Ok(Some(h));
        }
        if contains_id(&visited, h.as_slice()) {
            assert(closed_under(store@, vv, pend1));
        } else {
            assert(in_history(store@, giver@, h@)) by {
                assert(qv[head - 1] == h@);
            }
            let ps = match parents_of(store, h.as_slice()) {
                Ok(ps) => ps,
                Err(e) => {
                    assert(in_history(store@, giver@, h@) && commit_parents(store@, h@) is None);
                    return Err(e);
                },
            };
            let ghost psv = ids_view(ps@);
            assert(parents_spec(store@, h@) == psv);
            assert(store@.contains_key(h@));
            append_ids(&mut queue, &ps);
            visited.push(h);
            proof {
                let vv2 = ids_view(visited@);
                let qv2 = ids_view(queue@);
                let pend2 = qv2.subrange(head as int, qv2.len() as int);
                assert(vv2 =~= vv.push(h@));
                assert(qv2 =~= qv + psv);
                assert(pend2 =~= pend1 + psv);
                assert forall|i: int, j: int| 0 <= i < j < vv2.len() implies vv2[i] != vv2[j] by {
                    if j == vv2.len() - 1 {
                        assert(vv.contains(vv2[i]));
                    }
                }
                assert forall|k: int| 0 <= k < qv2.len() implies in_history(store@, giver@, #[trigger] qv2[k]) by {
                    if k >= qv.len() {
                        let n = choose|n: nat| reaches(store@, giver@, h@, n);
                        assert(psv.contains(qv2[k])) by {
                            assert(psv[k - qv.len()] == qv2[k]);
                        }
                        lemma_reaches_extend(store@, giver@, h@, qv2[k], n);
                    } else {
                        assert(qv2[k] == qv[k]);
                    }
                }
                assert forall|x: Seq<u8>, y: Seq<u8>|
                    #[trigger] vv2.contains(x) && #[trigger] parents_spec(store@, x).contains(y) implies vv2.contains(y)
                        || pend2.contains(y) by {
                    if x == h@ {
                        let j = choose|j: int| 0 <= j < psv.len() && psv[j] == y;
                        assert(pend2[pend1.len() + j] == y);
                    } else {
                        let i = choose|i: int| 0 <= i < vv2.len() && vv2[i] == x;
                        assert(vv[i] == x);
                        assert(vv.contains(x));
                        if vv.contains(y) {
                            let a = choose|a: int| 0 <= a < vv.len() && vv[a] == y;
                            assert(vv2[a] == y);
                        } else if y == h@ {
                            assert(vv2[vv.len() as int] == y);
                        } else {
                            assert(pend1.contains(y));
                            let a = choose|a: int| 0 <= a < pend1.len() && pend1[a] == y;
                            assert(pend2[a] == y);
                        }
                    }
                }
                if !vv.contains(giver@) {
                    if giver@ == h@ {
                        assert(vv2[vv.len() as int] == giver@);
                    } else {
                        let a = choose|a: int| 0 <= a < pend1.len() && pend1[a] == giver@;
                        assert(pend2[a] == giver@);
                    }
                } else {
                    let a = choose|a: int| 0 <= a < vv.len() && vv[a] == giver@;
                    assert(vv2[a] == giver@);
                }
                assert forall|k: int| 0 <= k < vv2.len() implies commit_parents(store@, #[trigger] vv2[k]) is Some
                    && store@.contains_key(vv2[k]) && in_history(store@, giver@, vv2[k]) && !av.contains(vv2[k]) by {
                    if k < vv.len() {
                        assert(vv2[k] == vv[k]);
                    }
                }
                lemma_unique_bound(store, vv2);
            }
        }
    }
    proof {
        let vv = ids_view(visited@);
        let qv = ids_view(queue@);
        assert(qv.subrange(head as int, qv.len() as int) =~= Seq::<Seq<u8>>::empty());
        assert forall|x: Seq<u8>| #![trigger vv.contains(x)] vv.contains(x) <==> in_history(store@, giver@, x) by {
            if in_history(store@, giver@, x) {
                let n = choose|n: nat| reaches(store@, giver@, x, n);
                lemma_closed_reach(store@, vv, giver@, x, n);
            }
            if vv.contains(x) {
                let k = choose|k: int| 0 <= k < vv.len() && vv[k] == x;
            }
        }
        assert forall|x: Seq<u8>| !(#[trigger] in_history(store@, receiver@, x) && in_history(store@, giver@, x)) by {
            if in_history(store@, receiver@, x) && in_history(store@, giver@, x) {
                assert(vv.contains(x));
                let k = choose|k: int| 0 <= k < vv.len() && vv[k] == x;
                assert(!av.contains(vv[k]));
                assert(av.contains(x));
            }
        }
    }
    Ok(None)
}

} // verus!

verus! {

/// What one side holds at a path: its mode and raw identity, or nothing.
pub type Side = Option<(FileMode, Seq<u8>)>;

/// How one path is reconciled: `None` for a conflict, otherwise what the
/// merged tree holds there (`Some(None)`: nothing). A path that both sides
/// changed is kept only when they changed it to the same mode and content.
pub open spec fn merge_entry(a: Side, r: Side, g: Side) -> Option<Side> {
    match (a, r, g) {
        (Some(x), Some(y), Some(z)) => if x == y && x == z {
            Some(a)
        } else if x == z {
            Some(r)
        } else if x == y {
            Some(g)
        } else if y == z {
            Some(r)
        } else {
            None
        },
        (None, Some(_), None) => Some(r),
        (None, None, Some(_)) => Some(g),
        (Some(x), None, Some(z)) => if x == z {
            Some(None)
        } else {
            None
        },
        (Some(x), Some(y), None) => if x == y {
            Some(None)
        } else {
            None
        },
        (None, Some(y), Some(z)) => if y == z {
            Some(r)
        } else {
            None
        },
        (Some(_), None, None) => Some(None),
        (None, None, None) => Some(None),
    }
}

/// What a flattened tree holds at path `p`: its first entry there.
pub open spec fn lookup_flat(s: Seq<FlatView>, p: Seq<u8>) -> Side
    decreases s.len(),
{
    if s.len() == 0 {
        None
    } else if s[0].0 == p {
        Some((s[0].1, s[0].2))
    } else {
        lookup_flat(s.drop_first(), p)
    }
}

/// What a staged entry list holds at path `p`: mode and hex hash of its
/// first entry there.
pub open spec fn lookup_entry(s: Seq<EntryView>, p: Seq<u8>) -> Option<(FileMode, Seq<u8>)>
    decreases s.len(),
{
    if s.len() == 0 {
        None
    } else if s[0].2 == p {
        Some((s[0].0, s[0].1))
    } else {
        lookup_entry(s.drop_first(), p)
    }
}

/// How path `p` is reconciled between ancestor `a`, receiver `r` and giver `g`.
pub open spec fn resolution(a: Seq<FlatView>, r: Seq<FlatView>, g: Seq<FlatView>, p: Seq<u8>) -> Option<Side> {
    merge_entry(lookup_flat(a, p), lookup_flat(r, p), lookup_flat(g, p))
}

/// A reconciled value with its identity written as hex text.
pub open spec fn hexed(v: Side) -> Option<(FileMode, Seq<u8>)> {
    match v {
        Some((m, id)) => Some((m, hex_ascii(id))),
        None => None,
    }
}

proof fn lemma_lookup_entry_push(s: Seq<EntryView>, e: EntryView, x: Seq<u8>)
    ensures
        lookup_entry(s.push(e), x) == (if lookup_entry(s, x) is Some {
            lookup_entry(s, x)
        } else if e.2 == x {
            Some((e.0, e.1))
        } else {
            None
        }),
    decreases s.len(),
{
    if s.len() > 0 {
        assert(s.push(e).drop_first() =~= s.drop_first().push(e));
        assert(s.push(e)[0] == s[0]);
        lemma_lookup_entry_push(s.drop_first(), e, x);
        assert(lookup_entry(s.push(e), x) == (if s[0].2 == x {
            Some((s[0].0, s[0].1))
        } else {
            lookup_entry(s.drop_first().push(e), x)
        }));
    } else {
        assert(s.push(e).drop_first() =~= Seq::<EntryView>::empty());
        assert(s.push(e)[0] == e);
        assert(lookup_entry(s.push(e).drop_first(), x) is None);
        assert(lookup_entry(s, x) is None);
    }
}

proof fn lemma_lookup_flat_in(s: Seq<FlatView>, x: Seq<u8>)
    ensures
        lookup_flat(s, x) is Some ==> exists|i: int| 0 <= i < s.len() && s[i].0 == x,
    decreases s.len(),
{
    if s.len() > 0 && s[0].0 != x {
        lemma_lookup_flat_in(s.drop_first(), x);
        if lookup_flat(s, x) is Some {
            let i = choose|i: int| 0 <= i < s.drop_first().len() && s.drop_first()[i].0 == x;
            assert(s[i + 1].0 == x);
        }
    }
}

proof fn lemma_lookup_entry_none(s: Seq<EntryView>, x: Seq<u8>)
    requires
        forall|i: int| 0 <= i < s.len() ==> (#[trigger] s[i]).2 != x,
    ensures
        lookup_entry(s, x) is None,
    decreases s.len(),
{
    if s.len() > 0 {
        assert forall|i: int| 0 <= i < s.drop_first().len() implies (#[trigger] s.drop_first()[i]).2 != x by {
            assert(s.drop_first()[i] == s[i + 1]);
        }
        lemma_lookup_entry_none(s.drop_first(), x);
    }
}

fn lookup_side(s: &Vec<FlatEntry>, p: &[u8]) -> (r: Option<(FileMode, Vec<u8>)>)
    ensures
        match r {
            Some((m, id)) => lookup_flat(flats_view(s@), p@) == Some((m, id@)),
            None => lookup_flat(flats_view(s@), p@) is None,
        },
{
    let ghost sv = flats_view(s@);
    let mut i: usize = 0;
    assert(sv.subrange(0, sv.len() as int) =~= sv);
    while i < s.len()
        invariant
            i <= s@.len(),
            sv == flats_view(s@),
            lookup_flat(sv.subrange(i as int, sv.len() as int), p@) == lookup_flat(sv, p@),
        decreases s@.len() - i,
    {
        let ghost rest = sv.subrange(i as int, sv.len() as int);
        assert(rest[0] == s@[i as int]@);
        if bytes_eq(s[i].path.as_slice(), p) {
            let id = copy_range(s[i].id.as_slice(), 0, s[i].id.len());
            assert(id@ =~= s@[i as int].id@);
            return Some((s[i].mode, id));
        }
        assert(rest.drop_first() =~= sv.subrange(i + 1, sv.len() as int));
        i = i + 1;
    }
    None
}

fn same_side(x: &(FileMode, Vec<u8>), y: &(FileMode, Vec<u8>)) -> (r: bool)
    ensures
        r == ((x.0, x.1@) == (y.0, y.1@)),
{
    x.0 == y.0 && bytes_eq(x.1.as_slice(), y.1.as_slice())
}

pub open spec fn side_view(s: Option<(FileMode, Vec<u8>)>) -> Side {
    match s {
        Some((m, id)) => Some((m, id@)),
        None => None,
    }
}

/// How one path is reconciled, given what each of the three trees holds there.
pub fn merge_entry_of(
    a: Option<(FileMode, Vec<u8>)>,
    r: Option<(FileMode, Vec<u8>)>,
    g: Option<(FileMode, Vec<u8>)>,
) -> (res: Option<Option<(FileMode, Vec<u8>)>>)
    ensures
        match res {
            None => merge_entry(side_view(a), side_view(r), side_view(g)) is None,
            Some(v) => merge_entry(side_view(a), side_view(r), side_view(g)) == Some(side_view(v)),
        },
{
    match (a, r, g) {
        (Some(x), Some(y), Some(z)) => {
            if same_side(&x, &y) && same_side(&x, &z) {
                Some(Some(x))
            } else if same_side(&x, &z) {
                Some(Some(y))
            } else if same_side(&x, &y) {
                Some(Some(z))
            } else if same_side(&y, &z) {
                Some(Some(y))
            } else {
                None
            }
        },
        (None, Some(y), None) => Some(Some(y)),
        (None, None, Some(z)) => Some(Some(z)),
        (Some(x), None, Some(z)) => if same_side(&x, &z) {
            Some(None)
        } else {
            None
        },
        (Some(x), Some(y), None) => if same_side(&x, &y) {
            Some(None)
        } else {
            None
        },
        (None, Some(y), Some(z)) => if same_side(&y, &z) {
            Some(Some(y))
        } else {
            None
        },
        (Some(_), None, None) => Some(None),
        (None, None, None) => Some(None),
    }
}

} // verus!

verus! {

pub open spec fn flat_paths(s: Seq<FlatView>) -> Seq<Seq<u8>> {
    s.map_values(|f: FlatView| f.0)
}

proof fn lemma_lookup_entry_absent(s: Seq<EntryView>, x: Seq<u8>)
    ensures
        lookup_entry(s, x) is None ==> forall|i: int| 0 <= i < s.len() ==> (#[trigger] s[i]).2 != x,
    decreases s.len(),
{
    if s.len() > 0 {
        lemma_lookup_entry_absent(s.drop_first(), x);
        if lookup_entry(s, x) is None {
            assert forall|i: int| 0 <= i < s.len() implies (#[trigger] s[i]).2 != x by {
                if i > 0 {
                    assert(s[i] == s.drop_first()[i - 1]);
                }
            }
        }
    }
}

fn push_paths(all: &mut Vec<Vec<u8>>, s: &Vec<FlatEntry>)
    ensures
        ids_view(final(all)@) == ids_view(old(all)@) + flat_paths(flats_view(s@)),
{
    let ghost fp = flat_paths(flats_view(s@));
    let mut k: usize = 0;
    while k < s.len()
        invariant
            k <= s@.len(),
            fp == flat_paths(flats_view(s@)),
            ids_view(all@) == ids_view(old(all)@) + fp.subrange(0, k as int),
        decreases s@.len() - k,
    {
        let ghost before = ids_view(all@);
        let c = copy_range(s[k].path.as_slice(), 0, s[k].path.len());
        assert(c@ =~= fp[k as int]);
        all.push(c);
        assert(ids_view(all@) =~= before.push(fp[k as int]));
        assert(fp.subrange(0, k + 1) =~= fp.subrange(0, k as int).push(fp[k as int]));
        k = k + 1;
    }
    assert(fp.subrange(0, fp.len() as int) =~= fp);
}

proof fn lemma_side_in_paths(s: Seq<FlatView>, x: Seq<u8>)
    ensures
        lookup_flat(s, x) is Some ==> flat_paths(s).contains(x),
{
    lemma_lookup_flat_in(s, x);
    if lookup_flat(s, x) is Some {
        let i = choose|i: int| 0 <= i < s.len() && s[i].0 == x;
        assert(flat_paths(s)[i] == x);
    }
}

/// Reconciles three flattened trees path by path. On success, returns the
/// merged entries, one per path that the merge keeps, ascending by path, with
/// identities as hex text. When some path conflicts, fails with `Conflict` listing exactly the
/// conflicting paths, and returns nothing else.
pub fn merge_trees(ancestor: &Vec<FlatEntry>, receiver: &Vec<FlatEntry>, giver: &Vec<FlatEntry>) -> (r: Result<
    Vec<IndexEntry>,
    RitError,
>)
    ensures
        match r {
            Ok(es) => unique_paths(entries_view(es@)) && ascending_paths(entries_view(es@)) && (forall|p: Seq<u8>|
                #[trigger] resolution(flats_view(ancestor@), flats_view(receiver@), flats_view(giver@), p)
                    is Some) && (forall|p: Seq<u8>|
                #[trigger] lookup_entry(entries_view(es@), p) == hexed(
                    resolution(flats_view(ancestor@), flats_view(receiver@), flats_view(giver@), p)->Some_0,
                )),
            Err(RitError::Conflict { paths }) => ids_view(paths@).len() > 0 && (forall|p: Seq<u8>|
                #[trigger] ids_view(paths@).contains(p) <==> resolution(
                    flats_view(ancestor@),
                    flats_view(receiver@),
                    flats_view(giver@),
                    p,
                ) is None),
            Err(_) => false,
        },
{
    let ghost a = flats_view(ancestor@);
    let ghost rv = flats_view(receiver@);
    let ghost g = flats_view(giver@);
    let mut all: Vec<Vec<u8>> = Vec::new();
    push_paths(&mut all, ancestor);
    push_paths(&mut all, receiver);
    push_paths(&mut all, giver);
    let ghost uv = ids_view(all@);
    assert(uv =~= flat_paths(a) + flat_paths(rv) + flat_paths(g));
    let mut seen: Vec<Vec<u8>> = Vec::new();
    let mut conflicts: Vec<Vec<u8>> = Vec::new();
    let mut out: Vec<IndexEntry> = Vec::new();
    let mut k: usize = 0;
    while k < all.len()
        invariant
            k <= all@.len(),
            uv == ids_view(all@),
            a == flats_view(ancestor@),
            rv == flats_view(receiver@),
            g == flats_view(giver@),
            forall|x: Seq<u8>| #[trigger] ids_view(seen@).contains(x) <==> uv.subrange(0, k as int).contains(x),
            unique_paths(entries_view(out@)),
            forall|x: Seq<u8>|
                ids_view(seen@).contains(x) && resolution(a, rv, g, x) is Some ==> #[trigger] lookup_entry(
                    entries_view(out@),
                    x,
                ) == hexed(resolution(a, rv, g, x)->Some_0),
            forall|x: Seq<u8>| !ids_view(seen@).contains(x) ==> #[trigger] lookup_entry(entries_view(out@), x) is None,
            forall|x: Seq<u8>|
                #[trigger] ids_view(conflicts@).contains(x) <==> (ids_view(seen@).contains(x) && resolution(
                    a,
                    rv,
                    g,
                    x,
                ) is None),
        decreases all@.len() - k,
    {
        let p = copy_range(all[k].as_slice(), 0, all[k].len());
        assert(p@ =~= uv[k as int]);
        assert(uv.subrange(0, k + 1) =~= uv.subrange(0, k as int).push(p@));
        let ghost u1 = uv.subrange(0, k + 1);
        let ghost u0 = uv.subrange(0, k as int);
        if contains_id(&seen, p.as_slice()) {
            assert forall|x: Seq<u8>| #[trigger] ids_view(seen@).contains(x) <==> uv.subrange(0, k + 1).contains(x) by {
                if uv.subrange(0, k + 1).contains(x) && x != p@ {
                    let j = choose|j: int| 0 <= j < u1.len() && u1[j] == x;
                    assert(uv.subrange(0, k as int)[j] == x);
                }
                if ids_view(seen@).contains(x) {
                    let j = choose|j: int| 0 <= j < u0.len() && u0[j] == x;
                    assert(uv.subrange(0, k + 1)[j] == x);
                }
            }
        } else {
            let sa = lookup_side(ancestor, p.as_slice());
            let sr = lookup_side(receiver, p.as_slice());
            let sg = lookup_side(giver, p.as_slice());
            let ghost res = resolution(a, rv, g, p@);
            let m = merge_entry_of(sa, sr, sg);
            let ghost old_seen = ids_view(seen@);
            let ghost old_out = entries_view(out@);
            let ghost old_conf = ids_view(conflicts@);
            let pc = copy_range(p.as_slice(), 0, p.len());
            assert(pc@ =~= p@);
            seen.push(pc);
            assert(ids_view(seen@) =~= old_seen.push(p@));
            match m {
                None => {
                    let pc2 = copy_range(p.as_slice(), 0, p.len());
                    assert(pc2@ =~= p@);
                    conflicts.push(pc2);
                    assert(ids_view(conflicts@) =~= old_conf.push(p@));
                },
                Some(None) => {},
                Some(Some((mode, id))) => {
                    let h = hex_text(id.as_slice());
                    let e = IndexEntry { mode, sha1: h, path: p };
                    let ghost ev = e@;
                    proof {
                        assert(lookup_entry(old_out, ev.2) is None);
                        lemma_lookup_entry_absent(old_out, ev.2);
                    }
                    out.push(e);
                    proof {
                        assert(entries_view(out@) =~= old_out.push(ev));
                        assert forall|x: Seq<u8>| true implies #[trigger] lookup_entry(entries_view(out@), x)
                            == (if lookup_entry(old_out, x) is Some {
                            lookup_entry(old_out, x)
                        } else if ev.2 == x {
                            Some((ev.0, ev.1))
                        } else {
                            None
                        }) by {
                            lemma_lookup_entry_push(old_out, ev, x);
                        }
                        assert forall|i: int, j: int|
                            0 <= i < j < entries_view(out@).len() implies entries_view(out@)[i].2
                            != entries_view(out@)[j].2 by {
                            if j == old_out.len() {
                                assert(entries_view(out@)[i] == old_out[i]);
                            } else {
                                assert(entries_view(out@)[i] == old_out[i]);
                                assert(entries_view(out@)[j] == old_out[j]);
                            }
                        }
                    }
                },
            }
            proof {
                assert forall|x: Seq<u8>| #[trigger] u1.contains(x) <==> (u0.contains(x) || x == p@) by {
                    if u1.contains(x) && x != p@ {
                        let j = choose|j: int| 0 <= j < u1.len() && u1[j] == x;
                        assert(u0[j] == x);
                    }
                    if u0.contains(x) {
                        let j = choose|j: int| 0 <= j < u0.len() && u0[j] == x;
                        assert(u1[j] == x);
                    }
                    if x == p@ {
                        assert(u1[k as int] == x);
                    }
                }
                assert forall|x: Seq<u8>| #[trigger] ids_view(seen@).contains(x) <==> (old_seen.contains(x) || x == p@) by {
                    if ids_view(seen@).contains(x) && x != p@ {
                        let j = choose|j: int| 0 <= j < ids_view(seen@).len() && ids_view(seen@)[j] == x;
                        assert(old_seen[j] == x);
                    }
                    if old_seen.contains(x) {
                        let j = choose|j: int| 0 <= j < old_seen.len() && old_seen[j] == x;
                        assert(ids_view(seen@)[j] == x);
                    }
                    if x == p@ {
                        assert(ids_view(seen@)[old_seen.len() as int] == x);
                    }
                }
                assert forall|x: Seq<u8>| #[trigger] ids_view(conflicts@).contains(x) <==> (old_conf.contains(x) || (x == p@ && res is None)) by {
                    if res is None {
                        if ids_view(conflicts@).contains(x) && x != p@ {
                            let j = choose|j: int| 0 <= j < ids_view(conflicts@).len() && ids_view(conflicts@)[j] == x;
                            assert(old_conf[j] == x);
                        }
                        if old_conf.contains(x) {
                            let j = choose|j: int| 0 <= j < old_conf.len() && old_conf[j] == x;
                            assert(ids_view(conflicts@)[j] == x);
                        }
                        if x == p@ {
                            assert(ids_view(conflicts@)[old_conf.len() as int] == x);
                        }
                    } else {
                        assert(ids_view(conflicts@) == old_conf);
                    }
                }
            }
        }
        k = k + 1;
    }
    proof {
        assert(uv.subrange(0, uv.len() as int) =~= uv);
        assert forall|x: Seq<u8>| !uv.contains(x) implies resolution(a, rv, g, x) == Some(None::<(FileMode, Seq<u8>)>) by {
            lemma_side_in_paths(a, x);
            lemma_side_in_paths(rv, x);
            lemma_side_in_paths(g, x);
            if flat_paths(a).contains(x) {
                let i = choose|i: int| 0 <= i < flat_paths(a).len() && flat_paths(a)[i] == x;
                assert(uv[i] == x);
            }
            if flat_paths(rv).contains(x) {
                let i = choose|i: int| 0 <= i < flat_paths(rv).len() && flat_paths(rv)[i] == x;
                assert(uv[flat_paths(a).len() + i] == x);
            }
            if flat_paths(g).contains(x) {
                let i = choose|i: int| 0 <= i < flat_paths(g).len() && flat_paths(g)[i] == x;
                assert(uv[flat_paths(a).len() + flat_paths(rv).len() + i] == x);
            }
        }
    }
    if conflicts.len() > 0 {
        return Err(RitError::Conflict { paths: conflicts });
    }
    proof {
        assert forall|p: Seq<u8>| #[trigger] resolution(a, rv, g, p) is Some by {
            if resolution(a, rv, g, p) is None {
                if uv.contains(p) {
                    assert(ids_view(conflicts@).contains(p));
                }
            }
        }
    }
    let sorted = sort_by_path(out);
    proof {
        lemma_ascending_unique(entries_view(sorted@));
        lemma_same_lookups(entries_view(out@), entries_view(sorted@));
    }
    Ok(sorted)
}

} // verus!

verus! {

/// The files of the root tree of the commit stored as `c`.
pub open spec fn flat_of_commit(store: Map<Seq<u8>, Seq<u8>>, c: Seq<u8>, fuel: nat) -> Result<
    Seq<FlatView>,
    RitError,
> {
    match commit_tree(store, c) {
        Some(t) => flat_tree(store, t, Seq::empty(), fuel),
        None => if store.contains_key(c) {
            Err(RitError::InvalidData)
        } else {
            Err(RitError::NotFound)
        },
    }
}

/// The text of the merge commit that records the merged entries `es`, with
/// parents receiver and giver in that order.
pub open spec fn merged_commit_text(
    es: Seq<EntryView>,
    receiver: Seq<u8>,
    giver: Seq<u8>,
    message: Seq<u8>,
    config: Seq<(Seq<u8>, Seq<u8>)>,
    ts: nat,
) -> Seq<u8> {
    crate::commit::commit_text(
        hex_ascii(object_id(ObjectKind::Tree, crate::tree::root_tree_content(es))),
        seq![hex_ascii(receiver), hex_ascii(giver)],
        message,
        config,
        ts,
    )
}

/// What a merge did.
#[derive(Debug, Clone, PartialEq, Eq)]
pub enum MergeOutcome {
    /// The giver is already in the receiver's history: nothing to do.
    UpToDate,
    /// The receiver is the merge base: its branch moves to the giver, whose
    /// identity this is, and no commit is made.
    FastForward(Vec<u8>),
    /// A merge commit with parents receiver and giver was stored; this is
    /// its identity.
    Merged(Vec<u8>),
}

fn flat_of(store: &ObjectStore, c: &[u8]) -> (r: Result<Vec<FlatEntry>, RitError>)
    requires
        store.wf(),
    ensures
        match r {
            Ok(v) => flat_of_commit(store@, c@, store.spec_len()) == Ok::<Seq<FlatView>, RitError>(flats_view(v@)),
            Err(e) => flat_of_commit(store@, c@, store.spec_len()) == Err::<Seq<FlatView>, RitError>(e) && e.is_read_error(),
        },
{
    let t = tree_of(store, c)?;
    read_tree_entries(store, t.as_slice())
}

/// The merge base `b` of `r` and `g` is neither side, and the flattened root
/// trees of base, receiver and giver are `fa`, `fr` and `fg`.
pub open spec fn three_way_inputs(
    store: Map<Seq<u8>, Seq<u8>>,
    n: nat,
    r: Seq<u8>,
    g: Seq<u8>,
    b: Seq<u8>,
    fa: Seq<FlatView>,
    fr: Seq<FlatView>,
    fg: Seq<FlatView>,
) -> bool {
    &&& merge_base(store, r, g) == Some(Some(b))
    &&& b != r
    &&& b != g
    &&& flat_of_commit(store, b, n) == Ok::<Seq<FlatView>, RitError>(fa)
    &&& flat_of_commit(store, r, n) == Ok::<Seq<FlatView>, RitError>(fr)
    &&& flat_of_commit(store, g, n) == Ok::<Seq<FlatView>, RitError>(fg)
}

/// `es` holds, one entry per path, exactly what the three-way merge of `fa`,
/// `fr` and `fg` keeps, and no path conflicts.
pub open spec fn merged_as(fa: Seq<FlatView>, fr: Seq<FlatView>, fg: Seq<FlatView>, es: Seq<EntryView>) -> bool {
    &&& unique_paths(es)
    &&& forall|p: Seq<u8>| #[trigger] resolution(fa, fr, fg, p) is Some
    &&& forall|p: Seq<u8>| #[trigger] lookup_entry(es, p) == hexed(resolution(fa, fr, fg, p)->Some_0)
}

/// Merges the commit `giver` into the commit `receiver`, around the merge
/// base that `merge_base` fixes: when it is the giver nothing happens; when
/// it is the receiver the result is a fast-forward to the giver; otherwise
/// the three root trees are reconciled path by path, and the merged trees and
/// a merge commit with parents receiver and giver, in that order, are
/// stored. Nothing is stored when the merge fails: `Unrelated` when the
/// histories share no commit, `Conflict` listing every conflicting path, and
/// a read error only when a commit or tree that the merge needs cannot be
/// read.
pub fn merge_commits(
    store: &mut ObjectStore,
    receiver: &[u8],
    giver: &[u8],
    message: &[u8],
    config: &Config,
    timestamp: u64,
) -> (r: Result<MergeOutcome, RitError>)
    requires
        old(store).wf(),
    ensures
        store_extends(final(store), old(store)),
        ({
            let m = old(store)@;
            let n = old(store).spec_len();
            let mb = merge_base(m, receiver@, giver@);
            match r {
                Ok(MergeOutcome::UpToDate) => history_readable(m, receiver@) && mb == Some(Some(giver@))
                    && final(store)@ == m,
                Ok(MergeOutcome::FastForward(t)) => history_readable(m, receiver@) && mb == Some(
                    Some(receiver@),
                ) && receiver@ != giver@ && t@ == giver@ && final(store)@ == m,
                Ok(MergeOutcome::Merged(id)) => history_readable(m, receiver@) && exists|
                    b: Seq<u8>,
                    fa: Seq<FlatView>,
                    fr: Seq<FlatView>,
                    fg: Seq<FlatView>,
                    es: Seq<EntryView>,
                |
                    #![trigger three_way_inputs(m, n, receiver@, giver@, b, fa, fr, fg), merged_as(fa, fr, fg, es)]
                    three_way_inputs(m, n, receiver@, giver@, b, fa, fr, fg) && merged_as(fa, fr, fg, es)
                        && hashes_valid(es) && id@ == object_id(
                        ObjectKind::Commit,
                        merged_commit_text(es, receiver@, giver@, message@, config@, timestamp as nat),
                    ) && final(store)@ == after_store(
                        after_all(m, root_written(es)),
                        ObjectKind::Commit,
                        merged_commit_text(es, receiver@, giver@, message@, config@, timestamp as nat),
                    ),
                Err(RitError::Unrelated) => history_readable(m, receiver@) && mb == Some(None::<Seq<u8>>)
                    && final(store)@ == m,
                Err(RitError::Conflict { paths }) => final(store)@ == m && history_readable(m, receiver@)
                    && ids_view(paths@).len() > 0 && exists|
                    b: Seq<u8>,
                    fa: Seq<FlatView>,
                    fr: Seq<FlatView>,
                    fg: Seq<FlatView>,
                |
                    #![trigger three_way_inputs(m, n, receiver@, giver@, b, fa, fr, fg)]
                    three_way_inputs(m, n, receiver@, giver@, b, fa, fr, fg) && (forall|p: Seq<u8>|
                        #[trigger] ids_view(paths@).contains(p) <==> resolution(fa, fr, fg, p) is None),
                Err(e) => e.is_read_error() && final(store)@ == m && (!history_readable(m, receiver@)
                    || mb is None || exists|b: Seq<u8>|
                    #![trigger flat_of_commit(m, b, n)]
                    mb == Some(Some(b)) && b != receiver@ && b != giver@ && (flat_of_commit(m, b, n) is Err
                        || flat_of_commit(m, receiver@, n) is Err || flat_of_commit(m, giver@, n) is Err
                        || exists|fa: Seq<FlatView>, fr: Seq<FlatView>, fg: Seq<FlatView>, es: Seq<EntryView>|
                        #![trigger merged_as(fa, fr, fg, es)]
                        three_way_inputs(m, n, receiver@, giver@, b, fa, fr, fg) && merged_as(fa, fr, fg, es)
                            && !hashes_valid(es))),
            }
        }),
{
    proof {
        crate::object::lemma_store_extends_refl(store);
    }
    let base = match find_common_ancestor(store, receiver, giver) {
        Ok(Some(b)) => b,
        Ok(None) => {
            return Err(RitError::Unrelated);
        },
        Err(e) => {
            return Err(e);
        },
    };
    let ghost n = store.spec_len();
    if bytes_eq(base.as_slice(), giver) {
        return Ok(MergeOutcome::UpToDate);
    }
    if bytes_eq(base.as_slice(), receiver) {
        let t = copy_range(giver, 0, giver.len());
        assert(t@ =~= giver@);
        return Ok(MergeOutcome::FastForward(t));
    }
    let fa = match flat_of(store, base.as_slice()) {
        Ok(v) => v,
        Err(e) => {
            assert(flat_of_commit(store@, base@, n) is Err);
            return Err(e);
        },
    };
    let fr = match flat_of(store, receiver) {
        Ok(v) => v,
        Err(e) => {
            assert(flat_of_commit(store@, base@, n) is Ok);
            return Err(e);
        },
    };
    let fg = match flat_of(store, giver) {
        Ok(v) => v,
        Err(e) => {
            assert(flat_of_commit(store@, base@, n) is Ok);
            return Err(e);
        },
    };
    let ghost fav = flats_view(fa@);
    let ghost frv = flats_view(fr@);
    let ghost fgv = flats_view(fg@);
    assert(three_way_inputs(store@, n, receiver@, giver@, base@, fav, frv, fgv));
    let merged = match merge_trees(&fa, &fr, &fg) {
        Ok(es) => es,
        Err(e) => {
            return Err(e);
        },
    };
    let ghost esv = entries_view(merged@);
    assert(merged_as(fav, frv, fgv, esv));
    let tree = match write_tree(store, &merged) {
        Ok(t) => t,
        Err(e) => {
            assert(flat_of_commit(store@, base@, n) is Ok);
            return Err(e);
        },
    };
    let ghost mid = *store;
    let tree_hex = hex_text(tree.as_slice());
    let parents = vec![hex_text(receiver), hex_text(giver)];
    let content = build_commit_content(tree_hex.as_slice(), &parents, message, config, timestamp);
    assert(parents@.map_values(|p: Vec<u8>| p@) =~= seq![hex_ascii(receiver@), hex_ascii(giver@)]);
    let id = store_object(store, ObjectKind::Commit, content.as_slice());
    proof {
        assert forall|k: Seq<u8>| #[trigger] old(store)@.contains_key(k) implies store@.contains_key(k)
            && store@[k] == old(store)@[k] by {
            assert(mid@.contains_key(k));
        }
        assert forall|i: int| 0 <= i < old(store).spec_len() implies #[trigger] store.id_at(i)
            == old(store).id_at(i) by {
            assert(mid.id_at(i) == old(store).id_at(i));
        }
        assert(content@ == merged_commit_text(esv, receiver@, giver@, message@, config@, timestamp as nat));
    }
    Ok(MergeOutcome::Merged(id))
}

/// Conflict detection: when both sides hold a path that the ancestor also
/// holds, each side changed it, and the two sides differ in mode or content, the path
/// is a conflict, so `merge_trees` and `merge_commits` report it.
pub proof fn lemma_both_changed_conflict(
    a: Seq<FlatView>,
    r: Seq<FlatView>,
    g: Seq<FlatView>,
    p: Seq<u8>,
    x: (FileMode, Seq<u8>),
    y: (FileMode, Seq<u8>),
    z: (FileMode, Seq<u8>),
)
    requires
        lookup_flat(a, p) == Some(x),
        lookup_flat(r, p) == Some(y),
        lookup_flat(g, p) == Some(z),
        y != x,
        z != x,
        y != z,
    ensures
        resolution(a, r, g, p) is None,
{
}

} // verus!

verus! {

proof fn lemma_linear_walk(
    store: Map<Seq<u8>, Seq<u8>>,
    receiver: Seq<u8>,
    chain: Seq<Seq<u8>>,
    i: int,
)
    requires
        chain.len() >= 1,
        chain.last() == receiver,
        0 <= i < chain.len(),
        chain.len() <= store.dom().len() + 1,
        chain.no_duplicates(),
        forall|j: int| 0 <= j < chain.len() - 1 ==> commit_parents(store, #[trigger] chain[j]) == Some(seq![chain[j + 1]]),
        forall|j: int| 0 <= j < chain.len() - 1 ==> !in_history(store, receiver, #[trigger] chain[j]),
    ensures
        bfs_from(store, store.dom().len(), receiver, chain.subrange(0, i + 1), i, chain.subrange(0, i))
            == Some(Some(receiver)),
    decreases chain.len() - i,
{
    let q = chain.subrange(0, i + 1);
    let vis = chain.subrange(0, i);
    let h = q[i];
    assert(h == chain[i]);
    if i == chain.len() - 1 {
        assert(reaches(store, receiver, receiver, 0));
        assert(in_history(store, receiver, h));
    } else {
        assert(!in_history(store, receiver, h));
        assert(!vis.contains(h)) by {
            if vis.contains(h) {
                let k = choose|k: int| 0 <= k < vis.len() && vis[k] == h;
                assert(chain[k] == chain[i]);
            }
        }
        assert(q + seq![chain[i + 1]] =~= chain.subrange(0, i + 2));
        assert(vis.push(h) =~= chain.subrange(0, i + 1));
        lemma_linear_walk(store, receiver, chain, i + 1);
    }
}

/// Fast-forward: when the giver's history runs through single-parent commits
/// down to the receiver, none of which lies in the receiver's history, the
/// merge base is the receiver, so `merge_commits` fast-forwards (given the
/// receiver's history is readable) and stores nothing.
pub proof fn lemma_linear_fast_forward(store: Map<Seq<u8>, Seq<u8>>, receiver: Seq<u8>, chain: Seq<Seq<u8>>)
    requires
        store.dom().finite(),
        chain.len() >= 1,
        chain.last() == receiver,
        chain.no_duplicates(),
        forall|j: int| 0 <= j < chain.len() - 1 ==> commit_parents(store, #[trigger] chain[j]) == Some(seq![chain[j + 1]]),
        forall|j: int| 0 <= j < chain.len() - 1 ==> !in_history(store, receiver, #[trigger] chain[j]),
    ensures
        merge_base(store, receiver, chain[0]) == Some(Some(receiver)),
{
    let front = chain.drop_last();
    assert(front.no_duplicates()) by {
        assert forall|i: int, j: int| 0 <= i < j < front.len() implies front[i] != front[j] by {
            assert(front[i] == chain[i] && front[j] == chain[j]);
        }
    }
    front.unique_seq_to_set();
    assert(front.to_set().subset_of(store.dom())) by {
        assert forall|k: Seq<u8>| front.to_set().contains(k) implies store.dom().contains(k) by {
            let i = choose|i: int| 0 <= i < front.len() && front[i] == k;
            assert(commit_parents(store, chain[i]) is Some);
        }
    }
    vstd::set_lib::lemma_len_subset(front.to_set(), store.dom());
    lemma_linear_walk(store, receiver, chain, 0);
    assert(chain.subrange(0, 1) =~= seq![chain[0]]);
    assert(chain.subrange(0, 0) =~= Seq::<Seq<u8>>::empty());
}

} // verus!

verus! {

/// Paths strictly ascending, byte-wise.
pub open spec fn ascending_paths(s: Seq<EntryView>) -> bool {
    forall|i: int, j: int| 0 <= i < j < s.len() ==> crate::tree::bytes_lt(s[i].2, s[j].2)
}

proof fn lemma_ascending_unique(s: Seq<EntryView>)
    requires
        ascending_paths(s),
    ensures
        unique_paths(s),
{
    assert forall|i: int, j: int| 0 <= i < j < s.len() implies s[i].2 != s[j].2 by {
        crate::tree::lemma_bytes_lt_irreflexive(s[i].2);
    }
}

proof fn lemma_lookup_unique(s: Seq<EntryView>, p: Seq<u8>, v: (FileMode, Seq<u8>))
    requires
        unique_paths(s),
    ensures
        lookup_entry(s, p) == Some(v) <==> s.contains((v.0, v.1, p)),
    decreases s.len(),
{
    if s.len() > 0 {
        let t = s.drop_first();
        assert(unique_paths(t)) by {
            assert forall|i: int, j: int| 0 <= i < j < t.len() implies t[i].2 != t[j].2 by {
                assert(t[i] == s[i + 1] && t[j] == s[j + 1]);
            }
        }
        lemma_lookup_unique(t, p, v);
        if s.contains((v.0, v.1, p)) {
            let k = choose|k: int| 0 <= k < s.len() && s[k] == (v.0, v.1, p);
            if k > 0 {
                assert(t[k - 1] == s[k]);
                assert(s[0].2 != p);
            }
        }
        if t.contains((v.0, v.1, p)) {
            let k = choose|k: int| 0 <= k < t.len() && t[k] == (v.0, v.1, p);
            assert(s[k + 1] == t[k]);
        }
    }
}

proof fn lemma_same_lookups(a: Seq<EntryView>, b: Seq<EntryView>)
    requires
        unique_paths(a),
        unique_paths(b),
        a.to_multiset() == b.to_multiset(),
    ensures
        forall|p: Seq<u8>| #[trigger] lookup_entry(b, p) == lookup_entry(a, p),
{
    broadcast use vstd::seq_lib::group_to_multiset_ensures;

    assert forall|p: Seq<u8>| #[trigger] lookup_entry(b, p) == lookup_entry(a, p) by {
        assert forall|x: EntryView| a.contains(x) <==> b.contains(x) by {
            vstd::seq_lib::to_multiset_contains(a, x);
            vstd::seq_lib::to_multiset_contains(b, x);
        }
        match lookup_entry(a, p) {
            Some(v) => {
                lemma_lookup_unique(a, p, v);
                lemma_lookup_unique(b, p, v);
            },
            None => {
                lemma_lookup_entry_absent(a, p);
                assert forall|i: int| 0 <= i < b.len() implies (#[trigger] b[i]).2 != p by {
                    assert(b.contains(b[i]));
                    assert(a.contains(b[i]));
                    let k = choose|k: int| 0 <= k < a.len() && a[k] == b[i];
                }
                lemma_lookup_entry_none(b, p);
            },
        }
    }
}

/// The entries ordered by path, byte-wise.
fn sort_by_path(v: Vec<IndexEntry>) -> (r: Vec<IndexEntry>)
    requires
        unique_paths(entries_view(v@)),
    ensures
        entries_view(r@).to_multiset() == entries_view(v@).to_multiset(),
        ascending_paths(entries_view(r@)),
{
    broadcast use vstd::seq_lib::group_to_multiset_ensures;
    broadcast use vstd::multiset::group_multiset_axioms;

    let ghost vv = entries_view(v@);
    let mut out: Vec<IndexEntry> = Vec::new();
    let mut i: usize = 0;
    assert(entries_view(out@) =~= Seq::<EntryView>::empty());
    while i < v.len()
        invariant
            i <= v@.len(),
            vv == entries_view(v@),
            unique_paths(vv),
            ascending_paths(entries_view(out@)),
            entries_view(out@).to_multiset() == vv.subrange(0, i as int).to_multiset(),
        decreases v@.len() - i,
    {
        let x = v[i].clone_entry();
        assert(x@ == vv[i as int]);
        let ghost before = entries_view(out@);
        assert forall|k: int| 0 <= k < before.len() implies before[k].2 != x@.2 by {
            assert(before.contains(before[k]));
            vstd::seq_lib::to_multiset_contains(before, before[k]);
            vstd::seq_lib::to_multiset_contains(vv.subrange(0, i as int), before[k]);
            assert(vv.subrange(0, i as int).contains(before[k]));
            let m = choose|m: int| 0 <= m < i && vv.subrange(0, i as int)[m] == before[k];
            assert(vv[m] == before[k]);
        }
        let mut j: usize = 0;
        while j < out.len() && !crate::tree::bytes_less(x.path.as_slice(), out[j].path.as_slice())
            invariant
                j <= out@.len(),
                before == entries_view(out@),
                forall|k: int| 0 <= k < j ==> !crate::tree::bytes_lt(x@.2, #[trigger] before[k].2),
            decreases out@.len() - j,
        {
            assert(before[j as int] == out@[j as int]@);
            j = j + 1;
        }
        if j < out.len() {
            assert(before[j as int] == out@[j as int]@);
        }
        out.insert(j, x);
        proof {
            let after = entries_view(out@);
            assert(after =~= before.insert(j as int, x@));
            to_multiset_insert(before, j as int, x@);
            to_multiset_build(vv.subrange(0, i as int), x@);
            assert(vv.subrange(0, i + 1) =~= vv.subrange(0, i as int).push(x@));
            assert forall|a: int, b: int| 0 <= a < b < after.len() implies crate::tree::bytes_lt(
                after[a].2,
                after[b].2,
            ) by {
                if b < j {
                    assert(after[a] == before[a] && after[b] == before[b]);
                } else if b == j {
                    assert(after[a] == before[a]);
                    crate::tree::lemma_bytes_lt_total(before[a].2, x@.2);
                } else if a < j {
                    assert(after[a] == before[a] && after[b] == before[b - 1]);
                } else if a == j {
                    assert(after[b] == before[b - 1]);
                    if b - 1 > j {
                        crate::tree::lemma_bytes_lt_trans(x@.2, before[j as int].2, before[b - 1].2);
                    }
                } else {
                    assert(after[a] == before[a - 1] && after[b] == before[b - 1]);
                }
            }
        }
        i = i + 1;
    }
    assert(vv.subrange(0, vv.len() as int) =~= vv);
    out
}

} // verus!

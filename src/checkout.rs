//! Checkout: the safety check against uncommitted edits, the choice between
//! a branch and a raw commit, and the files that restoring writes.

use crate::codec::{copy_range, from_hex};
use crate::commit::{commit_tree, tree_of};
use crate::config::{trim, trim_bytes};
use crate::error::RitError;
use crate::index::{dirty_paths_of, paths_view, valid_hash_text, working_view, Index, is_hash_text};
use crate::object::ObjectStore;
use crate::refs::{branch_head_text, head_text_for_branch};
use crate::tree::{file_pairs_view, restore_tree, restored_files, FileView};
use vstd::prelude::*;

verus! {

/// What a checkout writes: HEAD's new text, the commit it moves to (hex),
/// the branch it attaches to (`None` when detached), and the files of the
/// commit's tree with their contents. The working tree is cleared (all but
/// the metadata directory) before the files are written.
pub struct CheckoutPlan {
    pub head_text: Vec<u8>,
    pub commit: Vec<u8>,
    pub branch: Option<Vec<u8>>,
    pub files: Vec<(Vec<u8>, Vec<u8>)>,
}

/// The commit, as hex text, that a checkout of `target` moves to: the
/// trimmed content of the branch's reference file when the branch exists,
/// else the target itself.
pub open spec fn checkout_commit(target: Seq<u8>, branch_file: Option<Seq<u8>>) -> Seq<u8> {
    match branch_file {
        Some(c) => trim(c),
        None => target,
    }
}

pub open spec fn opt_view(o: Option<&[u8]>) -> Option<Seq<u8>> {
    match o {
        Some(c) => Some(c@),
        None => None,
    }
}

/// The files that a checkout of the commit with hex text `c` restores.
/// `NotFound` when `c` is not 40 hex digits or names no stored object;
/// `InvalidData` when the commit has no readable `tree` line; otherwise what
/// restoring its tree gives.
pub open spec fn checkout_files(store: Map<Seq<u8>, Seq<u8>>, c: Seq<u8>, fuel: nat) -> Result<
    Seq<FileView>,
    RitError,
> {
    if !valid_hash_text(c) {
        Err(RitError::NotFound)
    } else {
        match commit_tree(store, crate::commit::decoded(c)) {
            None => if store.contains_key(crate::commit::decoded(c)) {
                Err(RitError::InvalidData)
            } else {
                Err(RitError::NotFound)
            },
            Some(t) => restored_files(store, t, fuel),
        }
    }
}

/// Plans `checkout target`. `working[i]` is what the working tree holds for
/// index entry `i`, and `branch_file` the content of `refs/heads/<target>`
/// when that branch exists. Fails with `Dirty`, listing every tracked file
/// whose working copy differs from the index, before anything else;
/// otherwise with the error of `checkout_files` for the commit.
pub fn plan_checkout(
    store: &ObjectStore,
    index: &Index,
    working: &Vec<Option<Vec<u8>>>,
    target: &[u8],
    branch_file: Option<&[u8]>,
) -> (r: Result<CheckoutPlan, RitError>)
    requires
        store.wf(),
        working@.len() == index@.len(),
    ensures
        ({
            let dirty = dirty_paths_of(index@, working_view(working@));
            let c = checkout_commit(target@, opt_view(branch_file));
            match r {
                Ok(plan) => dirty.len() == 0 && plan.commit@ == c && (match branch_file {
                    Some(_) => plan.head_text@ == branch_head_text(target@) && (plan.branch matches Some(
                        b,
                    ) && b@ == target@),
                    None => plan.head_text@ == target@ && plan.branch is None,
                }) && checkout_files(store@, c, store.spec_len()) == Ok::<Seq<FileView>, RitError>(
                    file_pairs_view(plan.files@),
                ),
                Err(RitError::Dirty { paths }) => dirty.len() > 0 && paths_view(paths@) == dirty,
                Err(e) => dirty.len() == 0 && checkout_files(store@, c, store.spec_len()) == Err::<
                    Seq<FileView>,
                    RitError,
                >(e),
            }
        }),
{
    index.check_clean(working)?;
    let (commit, head_text, branch) = match branch_file {
        Some(c) => {
            let t = copy_range(target, 0, target.len());
            assert(t@ =~= target@);
            (trim_bytes(c), head_text_for_branch(target), Some(t))
        },
        None => {
            let t = copy_range(target, 0, target.len());
            let h = copy_range(target, 0, target.len());
            assert(t@ =~= target@);
            assert(h@ =~= target@);
            (t, h, None)
        },
    };
    if !is_hash_text(commit.as_slice()) {
        return Err(RitError::NotFound);
    }
    let raw = match from_hex(commit.as_slice()) {
        Some(v) => v,
        None => {
            return Err(RitError::NotFound);
        },
    };
    let tree = tree_of(store, raw.as_slice())?;
    let files = restore_tree(store, tree.as_slice())?;
    Ok(CheckoutPlan { head_text, commit, branch, files })
}

} // verus!

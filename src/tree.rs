//! Tree objects: entries sorted by name and serialized as
//! `"<mode> <name>\0"` followed by the 20 raw bytes of the entry's identity,
//! and the builder that turns a flat staged list into nested trees.

use crate::codec::{bytes_eq, copy_range, find_byte, find_from, from_hex, push_all, unhex};
use crate::error::RitError;
use crate::index::{entries_view, is_hash_text, paths_view, valid_hash_text, EntryView, IndexEntry};
use crate::object::{after_all, object_id, store_extends, ObjectKind, ObjectStore};
use crate::mode::{lemma_mode_text_round_trip, mode_text, FileMode};
use vstd::prelude::*;
use vstd::relations::{sorted_by, total_ordering};
use vstd::multiset::Multiset;
use vstd::seq_lib::{lemma_sorted_unique, to_multiset_build, to_multiset_insert};

verus! {

/// A tree entry: mode, name and raw identity.
pub type ItemView = (FileMode, Seq<u8>, Seq<u8>);

/// One entry of a tree object.
#[derive(Debug, Clone, PartialEq, Eq)]
pub struct TreeItem {
    pub mode: FileMode,
    pub name: Vec<u8>,
    /// The raw 20-byte identity of the blob or subtree.
    pub id: Vec<u8>,
}

impl View for TreeItem {
    type V = ItemView;

    open spec fn view(&self) -> ItemView {
        (self.mode, self.name@, self.id@)
    }
}

pub open spec fn items_view(v: Seq<TreeItem>) -> Seq<ItemView> {
    v.map_values(|t: TreeItem| t@)
}

/// Byte-wise lexicographic order, a proper prefix first.
pub open spec fn bytes_lt(a: Seq<u8>, b: Seq<u8>) -> bool
    decreases a.len(),
{
    if a.len() == 0 {
        b.len() > 0
    } else if b.len() == 0 {
        false
    } else if a[0] != b[0] {
        a[0] < b[0]
    } else {
        bytes_lt(a.drop_first(), b.drop_first())
    }
}

/// Items ordered by name; the mode and then the identity only break ties
/// between equal names, so a file sorts before a directory of its name.
pub open spec fn item_lt(x: ItemView, y: ItemView) -> bool {
    bytes_lt(x.1, y.1) || (x.1 == y.1 && (bytes_lt(mode_text(x.0), mode_text(y.0)) || (x.0 == y.0
        && bytes_lt(x.2, y.2))))
}

pub open spec fn item_le(x: ItemView, y: ItemView) -> bool {
    x == y || item_lt(x, y)
}

/// The order in which a tree lists its items.
pub open spec fn item_order() -> spec_fn(ItemView, ItemView) -> bool {
    |x: ItemView, y: ItemView| item_le(x, y)
}

/// The items listed in tree order.
pub open spec fn sorted_items(s: Seq<ItemView>) -> Seq<ItemView> {
    s.sort_by(item_order())
}

/// The serialized form of one item.
pub open spec fn item_bytes(t: ItemView) -> Seq<u8> {
    mode_text(t.0) + seq![32u8] + t.1 + seq![0u8] + t.2
}

/// The content of a tree object listing `s` in the given order.
pub open spec fn tree_bytes(s: Seq<ItemView>) -> Seq<u8>
    decreases s.len(),
{
    if s.len() == 0 {
        Seq::empty()
    } else {
        tree_bytes(s.drop_last()) + item_bytes(s.last())
    }
}

pub proof fn lemma_bytes_lt_irreflexive(a: Seq<u8>)
    ensures
        !bytes_lt(a, a),
    decreases a.len(),
{
    if a.len() > 0 {
        lemma_bytes_lt_irreflexive(a.drop_first());
    }
}

pub proof fn lemma_bytes_lt_asym(a: Seq<u8>, b: Seq<u8>)
    ensures
        !(bytes_lt(a, b) && bytes_lt(b, a)),
    decreases a.len(),
{
    if a.len() > 0 && b.len() > 0 && a[0] == b[0] {
        lemma_bytes_lt_asym(a.drop_first(), b.drop_first());
    }
}

pub proof fn lemma_bytes_lt_total(a: Seq<u8>, b: Seq<u8>)
    ensures
        a == b || bytes_lt(a, b) || bytes_lt(b, a),
    decreases a.len(),
{
    if a.len() > 0 && b.len() > 0 && a[0] == b[0] {
        lemma_bytes_lt_total(a.drop_first(), b.drop_first());
        if a.drop_first() == b.drop_first() {
            assert(a =~= seq![a[0]] + a.drop_first());
            assert(b =~= seq![b[0]] + b.drop_first());
        }
    } else if a.len() == 0 && b.len() == 0 {
        assert(a =~= b);
    }
}

pub proof fn lemma_bytes_lt_trans(a: Seq<u8>, b: Seq<u8>, c: Seq<u8>)
    requires
        bytes_lt(a, b),
        bytes_lt(b, c),
    ensures
        bytes_lt(a, c),
    decreases a.len(),
{
    if a.len() > 0 && b.len() > 0 && c.len() > 0 && a[0] == b[0] && b[0] == c[0] {
        lemma_bytes_lt_trans(a.drop_first(), b.drop_first(), c.drop_first());
    }
}

proof fn lemma_mode_text_injective(m1: FileMode, m2: FileMode)
    ensures
        mode_text(m1) == mode_text(m2) ==> m1 == m2,
{
    lemma_mode_text_round_trip(m1);
    lemma_mode_text_round_trip(m2);
}

pub proof fn lemma_item_order_total()
    ensures
        total_ordering(item_order()),
{
    let le = item_order();
    assert forall|x: ItemView| #[trigger] le(x, x) by {}
    assert forall|x: ItemView, y: ItemView| #[trigger] le(x, y) && #[trigger] le(y, x) implies x == y by {
        if x != y {
            lemma_bytes_lt_asym(x.1, y.1);
            lemma_bytes_lt_asym(mode_text(x.0), mode_text(y.0));
            lemma_bytes_lt_asym(x.2, y.2);
            lemma_bytes_lt_irreflexive(x.1);
            lemma_bytes_lt_irreflexive(mode_text(x.0));
        }
    }
    assert forall|x: ItemView, y: ItemView, z: ItemView|
        #[trigger] le(x, y) && #[trigger] le(y, z) implies le(x, z) by {
        if x != y && y != z {
            lemma_mode_text_injective(x.0, y.0);
            lemma_mode_text_injective(y.0, z.0);
            if bytes_lt(x.1, y.1) && bytes_lt(y.1, z.1) {
                lemma_bytes_lt_trans(x.1, y.1, z.1);
            }
            if bytes_lt(mode_text(x.0), mode_text(y.0)) && bytes_lt(mode_text(y.0), mode_text(z.0)) {
                lemma_bytes_lt_trans(mode_text(x.0), mode_text(y.0), mode_text(z.0));
            }
            if bytes_lt(x.2, y.2) && bytes_lt(y.2, z.2) {
                lemma_bytes_lt_trans(x.2, y.2, z.2);
            }
        }
    }
    assert forall|x: ItemView, y: ItemView| #[trigger] le(x, y) || #[trigger] le(y, x) by {
        lemma_bytes_lt_total(x.1, y.1);
        lemma_bytes_lt_total(mode_text(x.0), mode_text(y.0));
        lemma_bytes_lt_total(x.2, y.2);
        lemma_mode_text_injective(x.0, y.0);
    }
}

/// Whether `a` sorts strictly before `b`, byte-wise.
pub fn bytes_less(a: &[u8], b: &[u8]) -> (r: bool)
    ensures
        r == bytes_lt(a@, b@),
{
    let mut i: usize = 0;
    assert(a@.subrange(0, a@.len() as int) =~= a@);
    assert(b@.subrange(0, b@.len() as int) =~= b@);
    while i < a.len() && i < b.len()
        invariant
            i <= a@.len(),
            i <= b@.len(),
            bytes_lt(a@.subrange(i as int, a@.len() as int), b@.subrange(i as int, b@.len() as int))
                == bytes_lt(a@, b@),
        decreases a@.len() - i,
    {
        let ghost sa = a@.subrange(i as int, a@.len() as int);
        let ghost sb = b@.subrange(i as int, b@.len() as int);
        if a[i] != b[i] {
            assert(sa[0] == a@[i as int] && sb[0] == b@[i as int]);
            return a[i] < b[i];
        }
        assert(sa.drop_first() =~= a@.subrange(i + 1, a@.len() as int));
        assert(sb.drop_first() =~= b@.subrange(i + 1, b@.len() as int));
        i = i + 1;
    }
    let ghost sa = a@.subrange(i as int, a@.len() as int);
    let ghost sb = b@.subrange(i as int, b@.len() as int);
    assert(sa.len() == 0 || sb.len() == 0);
    i == a.len() && i < b.len()
}

/// Whether item `x` sorts strictly before item `y`.
pub fn item_less(x: &TreeItem, y: &TreeItem) -> (r: bool)
    ensures
        r == item_lt(x@, y@),
{
    if bytes_less(x.name.as_slice(), y.name.as_slice()) {
        return true;
    }
    if !bytes_eq(x.name.as_slice(), y.name.as_slice()) {
        return false;
    }
    let mx = x.mode.text();
    let my = y.mode.text();
    if bytes_less(mx.as_slice(), my.as_slice()) {
        return true;
    }
    x.mode == y.mode && bytes_less(x.id.as_slice(), y.id.as_slice())
}

/// The items in tree order.
pub fn sort_items(items: Vec<TreeItem>) -> (r: Vec<TreeItem>)
    ensures
        items_view(r@) == sorted_items(items_view(items@)),
{
    broadcast use vstd::seq_lib::group_to_multiset_ensures;

    proof {
        lemma_item_order_total();
    }
    let ghost le = item_order();
    let mut out: Vec<TreeItem> = Vec::new();
    let mut i: usize = 0;
    while i < items.len()
        invariant
            i <= items@.len(),
            total_ordering(le),
            le == item_order(),
            sorted_by(items_view(out@), le),
            items_view(out@).to_multiset() == items_view(items@).subrange(0, i as int).to_multiset(),
        decreases items@.len() - i,
    {
        let x = items[i].clone_item();
        let mut j: usize = 0;
        while j < out.len() && !item_less(&x, &out[j])
            invariant
                j <= out@.len(),
                forall|k: int| 0 <= k < j ==> !item_lt(x@, #[trigger] items_view(out@)[k]),
            decreases out@.len() - j,
        {
            j = j + 1;
        }
        let ghost before = items_view(out@);
        out.insert(j, x);
        proof {
            let after = items_view(out@);
            assert(after =~= before.insert(j as int, x@));
            to_multiset_insert(before, j as int, x@);
            assert(items_view(items@).subrange(0, i + 1) =~= items_view(items@).subrange(
                0,
                i as int,
            ).push(x@));
            to_multiset_build(items_view(items@).subrange(0, i as int), x@);
            assert(after.to_multiset() =~= items_view(items@).subrange(0, i + 1).to_multiset());
            assert forall|a: int, b: int| 0 <= a < b < after.len() implies #[trigger] le(
                after[a],
                after[b],
            ) by {
                if b < j {
                    assert(le(before[a], before[b]));
                } else if b == j {
                    assert(!item_lt(x@, before[a]));
                    assert(le(before[a], x@) || le(x@, before[a]));
                } else if a < j {
                    assert(le(before[a], before[b - 1]));
                } else if a == j {
                    if j < before.len() {
                        assert(item_lt(x@, before[j as int]));
                        assert(le(x@, before[j as int]));
                        if b - 1 > j {
                            assert(le(before[j as int], before[b - 1]));
                        }
                    }
                } else {
                    assert(le(before[a - 1], before[b - 1]));
                }
            }
        }
        i = i + 1;
    }
    proof {
        let s = items_view(items@);
        assert(s.subrange(0, s.len() as int) =~= s);
        s.lemma_sort_by_ensures(le);
        lemma_sorted_unique(items_view(out@), s.sort_by(le), le);
    }
    out
}

/// The content of a tree object listing `items` in the given order.
pub fn serialize_items(items: &Vec<TreeItem>) -> (r: Vec<u8>)
    ensures
        r@ == tree_bytes(items_view(items@)),
{
    let mut out: Vec<u8> = Vec::new();
    let mut i: usize = 0;
    while i < items.len()
        invariant
            i <= items@.len(),
            out@ == tree_bytes(items_view(items@).subrange(0, i as int)),
        decreases items@.len() - i,
    {
        let t = &items[i];
        let m = t.mode.text();
        push_all(&mut out, m.as_slice());
        out.push(32);
        push_all(&mut out, t.name.as_slice());
        out.push(0);
        push_all(&mut out, t.id.as_slice());
        assert(items_view(items@).subrange(0, i + 1).drop_last() =~= items_view(items@).subrange(
            0,
            i as int,
        ));
        assert(out@ =~= tree_bytes(items_view(items@).subrange(0, i + 1)));
        i = i + 1;
    }
    assert(items_view(items@).subrange(0, items@.len() as int) =~= items_view(items@));
    out
}

/// The content of the tree object for `items`, whatever order they come in.
pub fn tree_content(items: Vec<TreeItem>) -> (r: Vec<u8>)
    ensures
        r@ == tree_bytes(sorted_items(items_view(items@))),
{
    let sorted = sort_items(items);
    serialize_items(&sorted)
}

/// The tree content depends only on which items there are, not on the order
/// in which they are given.
pub proof fn lemma_tree_order_independent(a: Seq<ItemView>, b: Seq<ItemView>)
    requires
        a.to_multiset() == b.to_multiset(),
    ensures
        tree_bytes(sorted_items(a)) == tree_bytes(sorted_items(b)),
{
    lemma_item_order_total();
    a.lemma_sort_by_ensures(item_order());
    b.lemma_sort_by_ensures(item_order());
    lemma_sorted_unique(sorted_items(a), sorted_items(b), item_order());
}

impl TreeItem {
    /// A copy of this item.
    pub fn clone_item(&self) -> (r: TreeItem)
        ensures
            r@ == self@,
    {
        let r = TreeItem {
            mode: self.mode,
            name: copy_range(self.name.as_slice(), 0, self.name.len()),
            id: copy_range(self.id.as_slice(), 0, self.id.len()),
        };
        assert(r.name@ =~= self.name@);
        assert(r.id@ =~= self.id@);
        r
    }
}

} // verus!

verus! {

/// Whether path `p` begins with `q`.
pub open spec fn starts_with(p: Seq<u8>, q: Seq<u8>) -> bool {
    q.len() <= p.len() && p.subrange(0, q.len() as int) == q
}

/// Whether the entry lies directly in the directory whose path prefix has
/// length `plen`: no `/` follows in its path.
pub open spec fn is_file_at(e: EntryView, plen: int) -> bool {
    find_from(e.2, 47, plen) >= e.2.len()
}

/// The tree item of an entry that lies directly in the directory.
pub open spec fn file_item(e: EntryView, plen: int) -> ItemView {
    (
        e.0,
        e.2.subrange(plen, e.2.len() as int),
        match unhex(e.1) {
            Some(v) => v,
            None => Seq::empty(),
        },
    )
}

/// The name of the subdirectory that holds an entry lying deeper.
pub open spec fn dir_name(e: EntryView, plen: int) -> Seq<u8> {
    e.2.subrange(plen, find_from(e.2, 47, plen))
}

/// The items of the entries that lie directly in the directory, in order.
pub open spec fn level_files(es: Seq<EntryView>, plen: int) -> Seq<ItemView>
    decreases es.len(),
{
    if es.len() == 0 {
        Seq::empty()
    } else {
        let rest = level_files(es.drop_last(), plen);
        if is_file_at(es.last(), plen) {
            rest.push(file_item(es.last(), plen))
        } else {
            rest
        }
    }
}

/// The names of the subdirectories, each once, in order of first appearance.
pub open spec fn level_dirs(es: Seq<EntryView>, plen: int) -> Seq<Seq<u8>>
    decreases es.len(),
{
    if es.len() == 0 {
        Seq::empty()
    } else {
        let rest = level_dirs(es.drop_last(), plen);
        if !is_file_at(es.last(), plen) && !rest.contains(dir_name(es.last(), plen)) {
            rest.push(dir_name(es.last(), plen))
        } else {
            rest
        }
    }
}

/// The entries whose path begins with `q`, in order.
pub open spec fn under(es: Seq<EntryView>, q: Seq<u8>) -> Seq<EntryView>
    decreases es.len(),
{
    if es.len() == 0 {
        Seq::empty()
    } else {
        let rest = under(es.drop_last(), q);
        if starts_with(es.last().2, q) {
            rest.push(es.last())
        } else {
            rest
        }
    }
}

/// The content of the tree object for the directory with path prefix
/// `prefix` (empty, or ending in `/`): its files and the subtrees of its
/// subdirectories, in tree order. `fuel` bounds how much longer than the
/// prefix a path may be.
pub open spec fn tree_content_of(es: Seq<EntryView>, prefix: Seq<u8>, fuel: nat) -> Seq<u8>
    decreases fuel, 1nat, 0nat,
{
    tree_bytes(
        sorted_items(
            level_files(es, prefix.len() as int) + dir_items(
                es,
                prefix,
                level_dirs(es, prefix.len() as int),
                fuel,
            ),
        ),
    )
}

/// The subtree items for the subdirectory names `names`.
pub open spec fn dir_items(es: Seq<EntryView>, prefix: Seq<u8>, names: Seq<Seq<u8>>, fuel: nat) -> Seq<
    ItemView,
>
    decreases fuel, 0nat, names.len(),
{
    if names.len() == 0 {
        Seq::empty()
    } else {
        let d = names.last();
        let q = prefix + d + seq![47u8];
        let id = if d.len() + 1 <= fuel {
            object_id(
                ObjectKind::Tree,
                tree_content_of(under(es, q), q, (fuel - d.len() - 1) as nat),
            )
        } else {
            Seq::empty()
        };
        dir_items(es, prefix, names.drop_last(), fuel).push((FileMode::Directory, d, id))
    }
}

/// The longest path length among the entries.
pub open spec fn max_path_len(es: Seq<EntryView>) -> nat
    decreases es.len(),
{
    if es.len() == 0 {
        0
    } else {
        let m = max_path_len(es.drop_last());
        if es.last().2.len() > m {
            es.last().2.len()
        } else {
            m
        }
    }
}

/// The content of the root tree object for a staged entry list.
pub open spec fn root_tree_content(es: Seq<EntryView>) -> Seq<u8> {
    tree_content_of(es, Seq::empty(), max_path_len(es))
}

/// The tree contents that writing the trees of a staged entry list stores,
/// in order, the root's last.
pub open spec fn root_written(es: Seq<EntryView>) -> Seq<Seq<u8>> {
    written_trees(es, Seq::empty(), max_path_len(es))
}

/// The contents of the tree objects that building the directory `prefix`
/// writes, in the order written: each subdirectory's trees, then its own.
pub open spec fn written_trees(es: Seq<EntryView>, prefix: Seq<u8>, fuel: nat) -> Seq<Seq<u8>>
    decreases fuel, 1nat, 0nat,
{
    written_dirs(es, prefix, level_dirs(es, prefix.len() as int), fuel).push(
        tree_content_of(es, prefix, fuel),
    )
}

/// The tree contents written for the subdirectories `names`, in order.
pub open spec fn written_dirs(es: Seq<EntryView>, prefix: Seq<u8>, names: Seq<Seq<u8>>, fuel: nat) -> Seq<
    Seq<u8>,
>
    decreases fuel, 0nat, names.len(),
{
    if names.len() == 0 {
        Seq::empty()
    } else {
        let d = names.last();
        let q = prefix + d + seq![47u8];
        written_dirs(es, prefix, names.drop_last(), fuel) + if d.len() + 1 <= fuel {
            written_trees(under(es, q), q, (fuel - d.len() - 1) as nat)
        } else {
            Seq::empty()
        }
    }
}

/// Whether `p` begins with `q`.
pub fn has_prefix(p: &[u8], q: &[u8]) -> (r: bool)
    ensures
        r == starts_with(p@, q@),
{
    if q.len() > p.len() {
        return false;
    }
    let head = copy_range(p, 0, q.len());
    bytes_eq(head.as_slice(), q)
}

fn contains_name(names: &Vec<Vec<u8>>, d: &[u8]) -> (r: bool)
    ensures
        r == paths_view(names@).contains(d@),
{
    let mut i: usize = 0;
    while i < names.len()
        invariant
            i <= names@.len(),
            forall|k: int| 0 <= k < i ==> names@[k]@ != d@,
        decreases names@.len() - i,
    {
        if bytes_eq(names[i].as_slice(), d) {
            assert(paths_view(names@)[i as int] == d@);
            return true;
        }
        i = i + 1;
    }
    assert(!paths_view(names@).contains(d@)) by {
        if paths_view(names@).contains(d@) {
            let k = choose|k: int| 0 <= k < paths_view(names@).len() && paths_view(names@)[k] == d@;
            assert(names@[k]@ == d@);
        }
    }
    false
}

/// The entries of `es` whose path begins with `q`.
fn entries_under(es: &Vec<IndexEntry>, q: &[u8]) -> (r: Vec<IndexEntry>)
    ensures
        entries_view(r@) == under(entries_view(es@), q@),
        forall|k: int|
            0 <= k < r@.len() ==> entries_view(es@).contains(#[trigger] r@[k]@) && starts_with(
                r@[k]@.2,
                q@,
            ),
{
    let ghost esv = entries_view(es@);
    let mut out: Vec<IndexEntry> = Vec::new();
    let mut i: usize = 0;
    while i < es.len()
        invariant
            i <= es@.len(),
            esv == entries_view(es@),
            entries_view(out@) == under(esv.subrange(0, i as int), q@),
            forall|k: int|
                0 <= k < out@.len() ==> esv.contains(#[trigger] out@[k]@) && starts_with(
                    out@[k]@.2,
                    q@,
                ),
        decreases es@.len() - i,
    {
        assert(esv.subrange(0, i + 1).drop_last() =~= esv.subrange(0, i as int));
        assert(esv[i as int] == es@[i as int]@);
        if has_prefix(es[i].path.as_slice(), q) {
            out.push(es[i].clone_entry());
        }
        assert(entries_view(out@) =~= under(esv.subrange(0, i + 1), q@));
        i = i + 1;
    }
    assert(esv.subrange(0, esv.len() as int) =~= esv);
    out
}

/// The requirements of the builder on the entries of one directory.
pub open spec fn level_ready(es: Seq<EntryView>, plen: int, fuel: nat) -> bool {
    forall|k: int|
        0 <= k < es.len() ==> valid_hash_text(#[trigger] es[k].1) && plen <= es[k].2.len() <= plen
            + fuel
}

/// Builds and stores the tree for the directory with path prefix `prefix`
/// and, first, the trees of all its subdirectories; returns its identity.
fn build_tree_recursive(store: &mut ObjectStore, es: &Vec<IndexEntry>, prefix: &Vec<u8>, fuel: usize) -> (r: Vec<u8>)
    requires
        old(store).wf(),
        level_ready(entries_view(es@), prefix@.len() as int, fuel as nat),
    ensures
        store_extends(final(store), old(store)),
        r@ == object_id(ObjectKind::Tree, tree_content_of(entries_view(es@), prefix@, fuel as nat)),
        final(store)@.contains_key(r@),
        final(store)@ == after_all(old(store)@, written_trees(entries_view(es@), prefix@, fuel as nat)),
    decreases fuel,
{
    let ghost esv = entries_view(es@);
    let plen = prefix.len();
    let mut files: Vec<TreeItem> = Vec::new();
    let mut names: Vec<Vec<u8>> = Vec::new();
    let mut i: usize = 0;
    while i < es.len()
        invariant
            i <= es@.len(),
            esv == entries_view(es@),
            plen == prefix@.len(),
            level_ready(esv, plen as int, fuel as nat),
            items_view(files@) == level_files(esv.subrange(0, i as int), plen as int),
            paths_view(names@) == level_dirs(esv.subrange(0, i as int), plen as int),
            forall|k: int| 0 <= k < names@.len() ==> #[trigger] names@[k]@.len() + 1 <= fuel,
        decreases es@.len() - i,
    {
        let e = &es[i];
        assert(esv[i as int] == e@);
        assert(esv.subrange(0, i + 1).drop_last() =~= esv.subrange(0, i as int));
        assert(esv.subrange(0, i + 1).last() == e@);
        assert(valid_hash_text(esv[i as int].1));
        let s = find_byte(e.path.as_slice(), 47, plen);
        if s >= e.path.len() {
            let id = match from_hex(e.sha1.as_slice()) {
                Some(v) => v,
                None => Vec::new(),
            };
            let name = copy_range(e.path.as_slice(), plen, e.path.len());
            files.push(TreeItem { mode: e.mode, name, id });
            assert(items_view(files@) =~= level_files(esv.subrange(0, i + 1), plen as int));
        } else {
            let d = copy_range(e.path.as_slice(), plen, s);
            assert(d@.len() + 1 <= fuel);
            if !contains_name(&names, d.as_slice()) {
                names.push(d);
                assert(paths_view(names@) =~= level_dirs(esv.subrange(0, i + 1), plen as int));
            }
        }
        i = i + 1;
    }
    assert(esv.subrange(0, esv.len() as int) =~= esv);
    let ghost dirs = paths_view(names@);
    let mut subtrees: Vec<TreeItem> = Vec::new();
    let mut j: usize = 0;
    while j < names.len()
        invariant
            j <= names@.len(),
            esv == entries_view(es@),
            plen == prefix@.len(),
            dirs == paths_view(names@),
            level_ready(esv, plen as int, fuel as nat),
            forall|k: int| 0 <= k < names@.len() ==> #[trigger] names@[k]@.len() + 1 <= fuel,
            items_view(subtrees@) == dir_items(esv, prefix@, dirs.subrange(0, j as int), fuel as nat),
            store_extends(store, old(store)),
            store@ == after_all(old(store)@, written_dirs(esv, prefix@, dirs.subrange(0, j as int), fuel as nat)),
        decreases names@.len() - j,
    {
        let d = &names[j];
        let mut q = copy_range(prefix.as_slice(), 0, plen);
        push_all(&mut q, d.as_slice());
        q.push(47);
        assert(q@ =~= prefix@ + d@ + seq![47u8]);
        let sub = entries_under(es, q.as_slice());
        let sub_fuel: usize = fuel - d.len() - 1;
        assert(level_ready(entries_view(sub@), q@.len() as int, sub_fuel as nat)) by {
            assert forall|k: int| 0 <= k < entries_view(sub@).len() implies valid_hash_text(
                #[trigger] entries_view(sub@)[k].1,
            ) && q@.len() <= entries_view(sub@)[k].2.len() <= q@.len() + sub_fuel by {
                assert(entries_view(sub@)[k] == sub@[k]@);
                assert(esv.contains(sub@[k]@));
                let m = choose|m: int| 0 <= m < esv.len() && esv[m] == sub@[k]@;
                assert(valid_hash_text(esv[m].1));
            }
        }
        let ghost before = *store;
        let id = build_tree_recursive(store, &sub, &q, sub_fuel);
        let name = copy_range(d.as_slice(), 0, d.len());
        assert(name@ =~= d@);
        subtrees.push(TreeItem { mode: FileMode::Directory, name, id });
        proof {
            let ds = dirs.subrange(0, j + 1);
            assert(ds.drop_last() =~= dirs.subrange(0, j as int));
            assert(ds.last() == d@);
            assert(items_view(subtrees@) =~= dir_items(esv, prefix@, ds, fuel as nat));
            crate::object::lemma_after_all_concat(
                old(store)@,
                written_dirs(esv, prefix@, dirs.subrange(0, j as int), fuel as nat),
                written_trees(entries_view(sub@), q@, sub_fuel as nat),
            );
            assert(written_dirs(esv, prefix@, ds, fuel as nat) == written_dirs(esv, prefix@, dirs.subrange(0, j as int), fuel as nat) + written_trees(entries_view(sub@), q@, sub_fuel as nat));
            assert forall|k: Seq<u8>| #[trigger] old(store)@.contains_key(k) implies store@.contains_key(k)
                && store@[k] == old(store)@[k] by {
                assert(before@.contains_key(k));
            }
            assert forall|i: int| 0 <= i < old(store).spec_len() implies #[trigger] store.id_at(i)
                == old(store).id_at(i) by {
                assert(before.id_at(i) == old(store).id_at(i));
            }
        }
        j = j + 1;
    }
    assert(dirs.subrange(0, dirs.len() as int) =~= dirs);
    let mut all = files;
    let ghost fv = items_view(all@);
    let mut k: usize = 0;
    while k < subtrees.len()
        invariant
            k <= subtrees@.len(),
            items_view(all@) == fv + items_view(subtrees@).subrange(0, k as int),
        decreases subtrees@.len() - k,
    {
        assert(items_view(subtrees@)[k as int] == subtrees@[k as int]@);
        let ghost prev = items_view(all@);
        all.push(subtrees[k].clone_item());
        assert(items_view(all@) =~= prev.push(subtrees@[k as int]@));
        assert(items_view(subtrees@).subrange(0, k + 1) =~= items_view(subtrees@).subrange(0, k as int).push(
            items_view(subtrees@)[k as int],
        ));
        assert(items_view(all@) =~= fv + items_view(subtrees@).subrange(0, k + 1));
        k = k + 1;
    }
    assert(items_view(subtrees@).subrange(0, subtrees@.len() as int) =~= items_view(subtrees@));
    let content = tree_content(all);
    let ghost before = *store;
    let id = crate::object::store_object(store, ObjectKind::Tree, content.as_slice());
    proof {
        assert forall|k: Seq<u8>| #[trigger] old(store)@.contains_key(k) implies store@.contains_key(k)
            && store@[k] == old(store)@[k] by {
            assert(before@.contains_key(k));
        }
        assert forall|i: int| 0 <= i < old(store).spec_len() implies #[trigger] store.id_at(i)
            == old(store).id_at(i) by {
            assert(before.id_at(i) == old(store).id_at(i));
        }
        let w = written_dirs(esv, prefix@, dirs, fuel as nat);
        assert(written_trees(esv, prefix@, fuel as nat).drop_last() == w);
    }
    id
}

} // verus!

verus! {

/// Every entry carries a 40-digit hex hash.
pub open spec fn hashes_valid(es: Seq<EntryView>) -> bool {
    forall|k: int| 0 <= k < es.len() ==> valid_hash_text(#[trigger] es[k].1)
}

proof fn lemma_max_path_len(es: Seq<EntryView>)
    ensures
        forall|k: int| 0 <= k < es.len() ==> (#[trigger] es[k]).2.len() <= max_path_len(es),
    decreases es.len(),
{
    if es.len() > 0 {
        lemma_max_path_len(es.drop_last());
        assert forall|k: int| 0 <= k < es.len() implies (#[trigger] es[k]).2.len() <= max_path_len(es) by {
            if k < es.len() - 1 {
                assert(es[k] == es.drop_last()[k]);
            }
        }
    }
}

/// Builds and stores the tree objects for a staged entry list, each
/// directory's entries sorted by name, and returns the root tree's identity.
/// The store afterwards is the store before with the framed trees of
/// `root_written` written in order, each only where its identity was absent.
/// Fails with `InvalidData`, storing nothing, when an entry's hash is not 40
/// hex digits.
pub fn write_tree(store: &mut ObjectStore, index_entries: &Vec<IndexEntry>) -> (r: Result<Vec<u8>, RitError>)
    requires
        old(store).wf(),
    ensures
        store_extends(final(store), old(store)),
        match r {
            Ok(id) => hashes_valid(entries_view(index_entries@)) && id@ == object_id(
                ObjectKind::Tree,
                root_tree_content(entries_view(index_entries@)),
            ) && final(store)@.contains_key(id@) && final(store)@ == after_all(
                old(store)@,
                root_written(entries_view(index_entries@)),
            ),
            Err(e) => !hashes_valid(entries_view(index_entries@)) && e == RitError::InvalidData
                && final(store)@ == old(store)@,
        },
{
    let ghost esv = entries_view(index_entries@);
    let mut m: usize = 0;
    let mut i: usize = 0;
    while i < index_entries.len()
        invariant
            i <= index_entries@.len(),
            esv == entries_view(index_entries@),
            m == max_path_len(esv.subrange(0, i as int)),
            hashes_valid(esv.subrange(0, i as int)),
            *store == *old(store),
            store.wf(),
        decreases index_entries@.len() - i,
    {
        let e = &index_entries[i];
        assert(esv[i as int] == e@);
        assert(esv.subrange(0, i + 1).drop_last() =~= esv.subrange(0, i as int));
        if !is_hash_text(e.sha1.as_slice()) {
            assert(!hashes_valid(esv)) by {
                assert(!valid_hash_text(esv[i as int].1));
            }
            proof {
                crate::object::lemma_store_extends_refl(store);
            }
            return Err(RitError::InvalidData);
        }
        if e.path.len() > m {
            m = e.path.len();
        }
        assert(hashes_valid(esv.subrange(0, i + 1))) by {
            assert forall|k: int| 0 <= k < i + 1 implies valid_hash_text(
                #[trigger] esv.subrange(0, i + 1)[k].1,
            ) by {
                if k < i {
                    assert(esv.subrange(0, i + 1)[k] == esv.subrange(0, i as int)[k]);
                }
            }
        }
        i = i + 1;
    }
    assert(esv.subrange(0, esv.len() as int) =~= esv);
    proof {
        lemma_max_path_len(esv);
    }
    let root: Vec<u8> = Vec::new();
    assert(root@ =~= Seq::<u8>::empty());
    let id = build_tree_recursive(store, index_entries, &root, m);
    Ok(id)
}

/// Sequences with the same elements, counted with multiplicity, keep the same
/// elements when each is mapped by `f`.
pub proof fn lemma_map_values_multiset<A, B>(a: Seq<A>, b: Seq<A>, f: spec_fn(A) -> B)
    requires
        a.to_multiset() == b.to_multiset(),
    ensures
        a.map_values(f).to_multiset() == b.map_values(f).to_multiset(),
    decreases a.len(),
{
    broadcast use vstd::seq_lib::group_to_multiset_ensures;
    broadcast use vstd::multiset::group_multiset_axioms;

    if a.len() == 0 {
        vstd::seq_lib::to_multiset_len(a);
        vstd::seq_lib::to_multiset_len(b);
        assert(b.len() == 0);
        assert(a.map_values(f) =~= b.map_values(f));
    } else {
        let x = a.last();
        let a1 = a.drop_last();
        assert(a1.push(x) =~= a);
        to_multiset_build(a1, x);
        assert(b.to_multiset().count(x) > 0);
        assert(b.contains(x));
        let i = choose|i: int| 0 <= i < b.len() && b[i] == x;
        let b1 = b.remove(i);
        vstd::seq_lib::to_multiset_remove(b, i);
        assert(a1.to_multiset() =~= b1.to_multiset());
        lemma_map_values_multiset(a1, b1, f);
        assert(a.map_values(f) =~= a1.map_values(f).push(f(x)));
        to_multiset_build(a1.map_values(f), f(x));
        assert(b.map_values(f).remove(i) =~= b1.map_values(f));
        vstd::seq_lib::to_multiset_remove(b.map_values(f), i);
        assert(b.map_values(f)[i] == f(x));
        assert(b.map_values(f).to_multiset().count(f(x)) > 0);
        assert(b.map_values(f).to_multiset() =~= b1.map_values(f).to_multiset().insert(f(x)));
    }
}

} // verus!

verus! {

/// The items of a tree object's content, appended to `acc`; `None` when an
/// entry lacks its zero byte or space, names an unknown mode, or is cut
/// short of its 20 identity bytes.
pub open spec fn parse_items_from(acc: Seq<ItemView>, c: Seq<u8>) -> Option<Seq<ItemView>>
    decreases c.len(),
{
    if c.len() == 0 {
        Some(acc)
    } else {
        let z = find_from(c, 0, 0);
        let sp = find_from(c, 32, 0);
        if !(0 <= sp < z < c.len()) || z + 21 > c.len() {
            None
        } else {
            match crate::mode::mode_of_text(c.subrange(0, sp)) {
                None => None,
                Some(m) => parse_items_from(
                    acc.push((m, c.subrange(sp + 1, z), c.subrange(z + 1, z + 21))),
                    c.subrange(z + 21, c.len() as int),
                ),
            }
        }
    }
}

/// The items of a tree object's content, in stored order.
pub open spec fn parse_items(c: Seq<u8>) -> Option<Seq<ItemView>> {
    parse_items_from(Seq::empty(), c)
}

/// Reads the items of a tree object's content; fails with `InvalidData` on a
/// malformed or truncated entry.
pub fn parse_tree(content: &[u8]) -> (r: Result<Vec<TreeItem>, RitError>)
    ensures
        match r {
            Ok(v) => parse_items(content@) == Some(items_view(v@)),
            Err(e) => parse_items(content@) is None && e == RitError::InvalidData,
        },
{
    let mut out: Vec<TreeItem> = Vec::new();
    let mut pos: usize = 0;
    assert(content@.subrange(0, content@.len() as int) =~= content@);
    assert(items_view(out@) =~= Seq::<ItemView>::empty());
    while pos < content.len()
        invariant
            pos <= content@.len(),
            parse_items_from(items_view(out@), content@.subrange(pos as int, content@.len() as int))
                == parse_items(content@),
        decreases content@.len() - pos,
    {
        let ghost rest = content@.subrange(pos as int, content@.len() as int);
        let z = find_byte(content, 0, pos);
        let sp = find_byte(content, 32, pos);
        proof {
            crate::codec::lemma_find_from_shift(content@, 0, pos as int, 0);
            crate::codec::lemma_find_from_shift(content@, 32, pos as int, 0);
        }
        if !(sp < z && z < content.len()) || content.len() - z < 21 {
            return Err(RitError::InvalidData);
        }
        let mt = copy_range(content, pos, sp);
        assert(mt@ =~= rest.subrange(0, sp - pos));
        match FileMode::parse(mt.as_slice()) {
            None => {
                return Err(RitError::InvalidData);
            },
            Some(m) => {
                let name = copy_range(content, sp + 1, z);
                let id = copy_range(content, z + 1, z + 21);
                assert(name@ =~= rest.subrange(sp - pos + 1, z - pos));
                assert(id@ =~= rest.subrange(z - pos + 1, z - pos + 21));
                let ghost before = items_view(out@);
                out.push(TreeItem { mode: m, name, id });
                assert(items_view(out@) =~= before.push((m, name@, id@)));
                assert(rest.subrange(z - pos + 21, rest.len() as int) =~= content@.subrange(
                    z + 21,
                    content@.len() as int,
                ));
                pos = z + 21;
            },
        }
    }
    assert(content@.subrange(pos as int, content@.len() as int) =~= Seq::<u8>::empty());
    Ok(out)
}

} // verus!

verus! {

/// A file of a flattened tree: its path from the root, mode and identity.
pub type FlatView = (Seq<u8>, FileMode, Seq<u8>);

/// A file reached by walking a tree.
#[derive(Debug, Clone, PartialEq, Eq)]
pub struct FlatEntry {
    pub path: Vec<u8>,
    pub mode: FileMode,
    pub id: Vec<u8>,
}

impl View for FlatEntry {
    type V = FlatView;

    open spec fn view(&self) -> FlatView {
        (self.path@, self.mode, self.id@)
    }
}

pub open spec fn flats_view(v: Seq<FlatEntry>) -> Seq<FlatView> {
    v.map_values(|f: FlatEntry| f@)
}

/// The files under the tree stored as `id`, their paths prefixed by
/// `prefix`, in stored order with each subtree's files in place of the
/// subtree. `NotFound` when a tree is missing; `InvalidData` when one has no
/// header or malformed entries, or nesting goes deeper than `fuel`.
pub open spec fn flat_tree(store: Map<Seq<u8>, Seq<u8>>, id: Seq<u8>, prefix: Seq<u8>, fuel: nat) -> Result<
    Seq<FlatView>,
    RitError,
>
    decreases fuel, 1nat, 0nat,
{
    if !store.contains_key(id) {
        Err(RitError::NotFound)
    } else {
        match crate::object::payload(store[id]) {
            None => Err(RitError::InvalidData),
            Some(c) => match parse_items(c) {
                None => Err(RitError::InvalidData),
                Some(items) => flat_items(store, items, prefix, fuel),
            },
        }
    }
}

/// The files under a sequence of tree items.
pub open spec fn flat_items(store: Map<Seq<u8>, Seq<u8>>, items: Seq<ItemView>, prefix: Seq<u8>, fuel: nat) -> Result<
    Seq<FlatView>,
    RitError,
>
    decreases fuel, 0nat, items.len(),
{
    if items.len() == 0 {
        Ok(Seq::empty())
    } else {
        match flat_items(store, items.drop_last(), prefix, fuel) {
            Err(e) => Err(e),
            Ok(front) => {
                let t = items.last();
                if t.0 == FileMode::Directory {
                    if fuel == 0 {
                        Err(RitError::InvalidData)
                    } else {
                        match flat_tree(store, t.2, prefix + t.1 + seq![47u8], (fuel - 1) as nat) {
                            Err(e) => Err(e),
                            Ok(sub) => Ok(front + sub),
                        }
                    }
                } else {
                    Ok(front.push((prefix + t.1, t.0, t.2)))
                }
            },
        }
    }
}

fn append_flats(out: &mut Vec<FlatEntry>, more: Vec<FlatEntry>)
    ensures
        flats_view(final(out)@) == flats_view(old(out)@) + flats_view(more@),
{
    let mut k: usize = 0;
    while k < more.len()
        invariant
            k <= more@.len(),
            flats_view(out@) == flats_view(old(out)@) + flats_view(more@).subrange(0, k as int),
        decreases more@.len() - k,
    {
        let f = &more[k];
        let ghost before = flats_view(out@);
        let c = FlatEntry {
            path: copy_range(f.path.as_slice(), 0, f.path.len()),
            mode: f.mode,
            id: copy_range(f.id.as_slice(), 0, f.id.len()),
        };
        assert(c@ =~= more@[k as int]@);
        out.push(c);
        assert(flats_view(out@) =~= before.push(flats_view(more@)[k as int]));
        assert(flats_view(more@).subrange(0, k + 1) =~= flats_view(more@).subrange(0, k as int).push(
            flats_view(more@)[k as int],
        ));
        k = k + 1;
    }
    assert(flats_view(more@).subrange(0, more@.len() as int) =~= flats_view(more@));
}

/// The files under the tree stored as `id`, their paths prefixed by `prefix`.
pub fn flatten_tree(store: &ObjectStore, id: &[u8], prefix: &Vec<u8>, fuel: usize) -> (r: Result<Vec<FlatEntry>, RitError>)
    requires
        store.wf(),
    ensures
        match r {
            Ok(v) => flat_tree(store@, id@, prefix@, fuel as nat) == Ok::<Seq<FlatView>, RitError>(flats_view(v@)),
            Err(e) => flat_tree(store@, id@, prefix@, fuel as nat) == Err::<Seq<FlatView>, RitError>(e) && e.is_read_error(),
        },
    decreases fuel, 1nat,
{
    let content = crate::object::read_object(store, id)?;
    let items = parse_tree(content.as_slice())?;
    flatten_items(store, &items, prefix, fuel)
}

fn flatten_items(store: &ObjectStore, items: &Vec<TreeItem>, prefix: &Vec<u8>, fuel: usize) -> (r: Result<Vec<FlatEntry>, RitError>)
    requires
        store.wf(),
    ensures
        match r {
            Ok(v) => flat_items(store@, items_view(items@), prefix@, fuel as nat) == Ok::<Seq<FlatView>, RitError>(flats_view(v@)),
            Err(e) => flat_items(store@, items_view(items@), prefix@, fuel as nat) == Err::<Seq<FlatView>, RitError>(e) && e.is_read_error(),
        },
    decreases fuel, 0nat,
{
    let ghost iv = items_view(items@);
    let mut out: Vec<FlatEntry> = Vec::new();
    let mut i: usize = 0;
    assert(flats_view(out@) =~= Seq::<FlatView>::empty());
    while i < items.len()
        invariant
            i <= items@.len(),
            store.wf(),
            iv == items_view(items@),
            flat_items(store@, iv.subrange(0, i as int), prefix@, fuel as nat) == Ok::<Seq<FlatView>, RitError>(flats_view(out@)),
        decreases items@.len() - i,
    {
        let t = &items[i];
        let ghost sub = iv.subrange(0, i + 1);
        assert(sub.drop_last() =~= iv.subrange(0, i as int));
        assert(sub.last() == t@);
        let mut p = copy_range(prefix.as_slice(), 0, prefix.len());
        push_all(&mut p, t.name.as_slice());
        if t.mode == FileMode::Directory {
            if fuel == 0 {
                proof {
                    lemma_flat_items_none_extends(store@, iv, i as int + 1, prefix@, fuel as nat, RitError::InvalidData);
                }
                return Err(RitError::InvalidData);
            }
            p.push(47);
            assert(p@ =~= prefix@ + t.name@ + seq![47u8]);
            match flatten_tree(store, t.id.as_slice(), &p, fuel - 1) {
                Ok(more) => {
                    append_flats(&mut out, more);
                },
                Err(e) => {
                    proof {
                        lemma_flat_items_none_extends(store@, iv, i as int + 1, prefix@, fuel as nat, e);
                    }
                    return Err(e);
                },
            }
        } else {
            assert(p@ =~= prefix@ + t.name@);
            let ghost before = flats_view(out@);
            let idc = copy_range(t.id.as_slice(), 0, t.id.len());
            assert(idc@ =~= t.id@);
            out.push(FlatEntry { path: p, mode: t.mode, id: idc });
            assert(flats_view(out@) =~= before.push((prefix@ + t.name@, t.mode, t.id@)));
        }
        i = i + 1;
    }
    assert(iv.subrange(0, iv.len() as int) =~= iv);
    Ok(out)
}

proof fn lemma_flat_items_none_extends(
    store: Map<Seq<u8>, Seq<u8>>,
    items: Seq<ItemView>,
    k: int,
    prefix: Seq<u8>,
    fuel: nat,
    e: RitError,
)
    requires
        0 <= k <= items.len(),
        flat_items(store, items.subrange(0, k), prefix, fuel) == Err::<Seq<FlatView>, RitError>(e),
    ensures
        flat_items(store, items, prefix, fuel) == Err::<Seq<FlatView>, RitError>(e),
    decreases items.len() - k,
{
    if k < items.len() {
        assert(items.subrange(0, k + 1).drop_last() =~= items.subrange(0, k));
        lemma_flat_items_none_extends(store, items, k + 1, prefix, fuel, e);
    } else {
        assert(items.subrange(0, k) =~= items);
    }
}

} // verus!

verus! {

/// The files of the tree stored as `id`, paths relative to the root; nesting
/// deeper than the number of stored objects is reported as `InvalidData`,
/// since no tree can contain itself.
pub fn read_tree_entries(store: &ObjectStore, tree_id: &[u8]) -> (r: Result<Vec<FlatEntry>, RitError>)
    requires
        store.wf(),
    ensures
        match r {
            Ok(v) => flat_tree(store@, tree_id@, Seq::empty(), store.spec_len()) == Ok::<Seq<FlatView>, RitError>(flats_view(v@)),
            Err(e) => flat_tree(store@, tree_id@, Seq::empty(), store.spec_len()) == Err::<Seq<FlatView>, RitError>(e) && e.is_read_error(),
        },
{
    let root: Vec<u8> = Vec::new();
    assert(root@ =~= Seq::<u8>::empty());
    flatten_tree(store, tree_id, &root, store.len())
}

/// A file to write into the working tree: path and content.
pub type FileView = (Seq<u8>, Seq<u8>);

/// The working-tree files for flattened entries: each path with the payload
/// of its blob; `NotFound` when a blob is missing, `InvalidData` when one has
/// no header.
pub open spec fn files_of(store: Map<Seq<u8>, Seq<u8>>, fs: Seq<FlatView>) -> Result<Seq<FileView>, RitError>
    decreases fs.len(),
{
    if fs.len() == 0 {
        Ok(Seq::empty())
    } else {
        match files_of(store, fs.drop_last()) {
            Err(e) => Err(e),
            Ok(front) => {
                let f = fs.last();
                if !store.contains_key(f.2) {
                    Err(RitError::NotFound)
                } else if crate::object::payload(store[f.2]) is None {
                    Err(RitError::InvalidData)
                } else {
                    Ok(front.push((f.0, crate::object::payload(store[f.2])->Some_0)))
                }
            },
        }
    }
}

/// The files that restoring the tree stored as `tree_id` writes: for each file
/// of the tree, its path and its blob's content.
pub open spec fn restored_files(store: Map<Seq<u8>, Seq<u8>>, tree_id: Seq<u8>, fuel: nat) -> Result<
    Seq<FileView>,
    RitError,
> {
    match flat_tree(store, tree_id, Seq::empty(), fuel) {
        Err(e) => Err(e),
        Ok(fs) => files_of(store, fs),
    }
}

pub open spec fn file_pairs_view(v: Seq<(Vec<u8>, Vec<u8>)>) -> Seq<FileView> {
    v.map_values(|p: (Vec<u8>, Vec<u8>)| (p.0@, p.1@))
}

/// The files, with their contents, of the tree stored as `tree_id`.
pub fn restore_tree(store: &ObjectStore, tree_id: &[u8]) -> (r: Result<Vec<(Vec<u8>, Vec<u8>)>, RitError>)
    requires
        store.wf(),
    ensures
        match r {
            Ok(v) => restored_files(store@, tree_id@, store.spec_len()) == Ok::<Seq<FileView>, RitError>(file_pairs_view(v@)),
            Err(e) => restored_files(store@, tree_id@, store.spec_len()) == Err::<Seq<FileView>, RitError>(e) && e.is_read_error(),
        },
{
    let fs = read_tree_entries(store, tree_id)?;
    let ghost fv = flats_view(fs@);
    let mut out: Vec<(Vec<u8>, Vec<u8>)> = Vec::new();
    let mut i: usize = 0;
    assert(file_pairs_view(out@) =~= Seq::<FileView>::empty());
    while i < fs.len()
        invariant
            i <= fs@.len(),
            store.wf(),
            fv == flats_view(fs@),
            flat_tree(store@, tree_id@, Seq::empty(), store.spec_len()) == Ok::<Seq<FlatView>, RitError>(fv),
            files_of(store@, fv.subrange(0, i as int)) == Ok::<Seq<FileView>, RitError>(file_pairs_view(out@)),
        decreases fs@.len() - i,
    {
        let f = &fs[i];
        let ghost sub = fv.subrange(0, i + 1);
        assert(sub.drop_last() =~= fv.subrange(0, i as int));
        assert(sub.last() == f@);
        match crate::object::read_object(store, f.id.as_slice()) {
            Ok(content) => {
                let ghost before = file_pairs_view(out@);
                let p = copy_range(f.path.as_slice(), 0, f.path.len());
                assert(p@ =~= f.path@);
                out.push((p, content));
                assert(file_pairs_view(out@) =~= before.push((f.path@, content@)));
            },
            Err(e) => {
                proof {
                    assert(files_of(store@, sub) == Err::<Seq<FileView>, RitError>(e));
                    lemma_files_of_none_extends(store@, fv, i as int + 1, e);
                }
                return Err(e);
            },
        }
        i = i + 1;
    }
    assert(fv.subrange(0, fv.len() as int) =~= fv);
    Ok(out)
}

proof fn lemma_files_of_none_extends(store: Map<Seq<u8>, Seq<u8>>, fs: Seq<FlatView>, k: int, e: RitError)
    requires
        0 <= k <= fs.len(),
        files_of(store, fs.subrange(0, k)) == Err::<Seq<FileView>, RitError>(e),
    ensures
        files_of(store, fs) == Err::<Seq<FileView>, RitError>(e),
    decreases fs.len() - k,
{
    if k < fs.len() {
        assert(fs.subrange(0, k + 1).drop_last() =~= fs.subrange(0, k));
        lemma_files_of_none_extends(store, fs, k + 1, e);
    } else {
        assert(fs.subrange(0, k) =~= fs);
    }
}

} // verus!

verus! {

/// `"commit "`
pub open spec fn commit_header_tag() -> Seq<u8> {
    seq![99u8, 111, 109, 109, 105, 116, 32]
}

/// The items of the tree stored as `t`.
pub open spec fn tree_items_at(store: Map<Seq<u8>, Seq<u8>>, t: Seq<u8>) -> Result<Seq<ItemView>, RitError> {
    if !store.contains_key(t) {
        Err(RitError::NotFound)
    } else {
        match crate::object::payload(store[t]) {
            None => Err(RitError::InvalidData),
            Some(c) => match parse_items(c) {
                None => Err(RitError::InvalidData),
                Some(items) => Ok(items),
            },
        }
    }
}

/// What `ls-tree` lists for the object stored as `id`: the items of that
/// tree, or of the root tree when the object is a commit. `NotFound` for a
/// missing object; `InvalidData` for a commit without a readable `tree` line
/// or a malformed tree.
pub open spec fn listed(store: Map<Seq<u8>, Seq<u8>>, id: Seq<u8>) -> Result<Seq<ItemView>, RitError> {
    if !store.contains_key(id) {
        Err(RitError::NotFound)
    } else if starts_with(store[id], commit_header_tag()) {
        match crate::commit::commit_tree(store, id) {
            None => Err(RitError::InvalidData),
            Some(t) => tree_items_at(store, t),
        }
    } else {
        tree_items_at(store, id)
    }
}

/// The items that `ls-tree` lists for the object stored as `id`.
pub fn list_tree(store: &ObjectStore, id: &[u8]) -> (r: Result<Vec<TreeItem>, RitError>)
    requires
        store.wf(),
    ensures
        match r {
            Ok(v) => listed(store@, id@) == Ok::<Seq<ItemView>, RitError>(items_view(v@)),
            Err(e) => listed(store@, id@) == Err::<Seq<ItemView>, RitError>(e),
        },
{
    let tag = vec![99u8, 111, 109, 109, 105, 116, 32];
    assert(tag@ =~= commit_header_tag());
    let tree = match store.get(id) {
        Some(data) => {
            if has_prefix(data.as_slice(), tag.as_slice()) {
                crate::commit::tree_of(store, id)?
            } else {
                copy_range(id, 0, id.len())
            }
        },
        None => {
            return Err(RitError::NotFound);
        },
    };
    assert(id@.subrange(0, id@.len() as int) =~= id@);
    let content = crate::object::read_object(store, tree.as_slice())?;
    parse_tree(content.as_slice())
}

} // verus!

verus! {

/// An item that serializes unambiguously: a name without zero bytes and a
/// 20-byte identity.
pub open spec fn item_ok(t: ItemView) -> bool {
    t.2.len() == 20 && forall|j: int| 0 <= j < t.1.len() ==> t.1[j] != 0
}

proof fn lemma_mode_text_digits(m: FileMode)
    ensures
        forall|j: int| 0 <= j < mode_text(m).len() ==> 48 <= #[trigger] mode_text(m)[j] <= 57,
        mode_text(m).len() > 0,
{
}

proof fn lemma_parse_one(acc: Seq<ItemView>, x: ItemView, c: Seq<u8>)
    requires
        item_ok(x),
    ensures
        parse_items_from(acc, item_bytes(x) + c) == parse_items_from(acc.push(x), c),
{
    let s = item_bytes(x) + c;
    let mt = mode_text(x.0);
    let sp = mt.len() as int;
    let z = sp + 1 + x.1.len();
    lemma_mode_text_digits(x.0);
    assert(s[sp] == 32);
    assert(s[z] == 0);
    assert forall|j: int| 0 <= j < sp implies s[j] != 32 by {
        assert(s[j] == mt[j]);
    }
    assert forall|j: int| 0 <= j < z implies s[j] != 0 by {
        if j < sp {
            assert(s[j] == mt[j]);
        } else if j > sp {
            assert(s[j] == x.1[j - sp - 1]);
        }
    }
    crate::codec::lemma_find_from_at(s, 32, sp, 0);
    crate::codec::lemma_find_from_at(s, 0, z, 0);
    lemma_mode_text_round_trip(x.0);
    assert(s.subrange(0, sp) =~= mt);
    assert(s.subrange(sp + 1, z) =~= x.1);
    assert(s.subrange(z + 1, z + 21) =~= x.2);
    assert(s.subrange(z + 21, s.len() as int) =~= c);
}

proof fn lemma_tree_bytes_front(s: Seq<ItemView>)
    requires
        s.len() > 0,
    ensures
        tree_bytes(s) == item_bytes(s[0]) + tree_bytes(s.drop_first()),
    decreases s.len(),
{
    if s.len() == 1 {
        assert(s.drop_last() =~= Seq::<ItemView>::empty());
        assert(s.drop_first() =~= Seq::<ItemView>::empty());
        assert(tree_bytes(s) =~= item_bytes(s[0]) + tree_bytes(s.drop_first()));
    } else {
        lemma_tree_bytes_front(s.drop_last());
        assert(s.drop_last().drop_first() =~= s.drop_first().drop_last());
        assert(s.drop_first().last() == s.last());
        assert(s.drop_last()[0] == s[0]);
        assert(tree_bytes(s) =~= item_bytes(s[0]) + tree_bytes(s.drop_first()));
    }
}

proof fn lemma_parse_tree_bytes_from(acc: Seq<ItemView>, s: Seq<ItemView>)
    requires
        forall|i: int| 0 <= i < s.len() ==> item_ok(#[trigger] s[i]),
    ensures
        parse_items_from(acc, tree_bytes(s)) == Some(acc + s),
    decreases s.len(),
{
    if s.len() == 0 {
        assert(acc + s =~= acc);
    } else {
        lemma_tree_bytes_front(s);
        assert(item_ok(s[0]));
        lemma_parse_one(acc, s[0], tree_bytes(s.drop_first()));
        assert forall|i: int| 0 <= i < s.drop_first().len() implies item_ok(#[trigger] s.drop_first()[i]) by {
            assert(s.drop_first()[i] == s[i + 1]);
        }
        lemma_parse_tree_bytes_from(acc.push(s[0]), s.drop_first());
        assert(acc.push(s[0]) + s.drop_first() =~= acc + s);
    }
}

/// Tree round trip: reading back the content of a tree object gives the
/// items it was written from, in the order written.
pub proof fn lemma_parse_tree_bytes(s: Seq<ItemView>)
    requires
        forall|i: int| 0 <= i < s.len() ==> item_ok(#[trigger] s[i]),
    ensures
        parse_items(tree_bytes(s)) == Some(s),
{
    lemma_parse_tree_bytes_from(Seq::empty(), s);
    assert(Seq::<ItemView>::empty() + s =~= s);
}

} // verus!

verus! {

/// The images under `f` of the elements of `s` that `f` keeps, in order.
pub open spec fn fmap<A, B>(s: Seq<A>, f: spec_fn(A) -> Option<B>) -> Seq<B>
    decreases s.len(),
{
    if s.len() == 0 {
        Seq::empty()
    } else {
        let r = fmap(s.drop_last(), f);
        match f(s.last()) {
            Some(y) => r.push(y),
            None => r,
        }
    }
}

pub open spec fn opt_ms<B>(o: Option<B>) -> Multiset<B> {
    match o {
        Some(y) => Multiset::singleton(y),
        None => Multiset::empty(),
    }
}

proof fn lemma_fmap_last<A, B>(s: Seq<A>, f: spec_fn(A) -> Option<B>)
    requires
        s.len() > 0,
    ensures
        fmap(s, f).to_multiset() == fmap(s.drop_last(), f).to_multiset().add(opt_ms(f(s.last()))),
{
    broadcast use vstd::multiset::group_multiset_axioms;

    match f(s.last()) {
        Some(y) => {
            to_multiset_build(fmap(s.drop_last(), f), y);
            assert(fmap(s.drop_last(), f).to_multiset().insert(y) =~= fmap(s.drop_last(), f).to_multiset().add(
                Multiset::singleton(y),
            ));
        },
        None => {
            assert(fmap(s.drop_last(), f).to_multiset() =~= fmap(s.drop_last(), f).to_multiset().add(
                Multiset::empty(),
            ));
        },
    }
}

proof fn lemma_fmap_remove<A, B>(s: Seq<A>, f: spec_fn(A) -> Option<B>, i: int)
    requires
        0 <= i < s.len(),
    ensures
        fmap(s, f).to_multiset() == fmap(s.remove(i), f).to_multiset().add(opt_ms(f(s[i]))),
    decreases s.len(),
{
    broadcast use vstd::multiset::group_multiset_axioms;

    lemma_fmap_last(s, f);
    if i == s.len() - 1 {
        assert(s.remove(i) =~= s.drop_last());
    } else {
        lemma_fmap_remove(s.drop_last(), f, i);
        let t = s.remove(i);
        assert(t.drop_last() =~= s.drop_last().remove(i));
        assert(t.last() == s.last());
        lemma_fmap_last(t, f);
        assert(fmap(s, f).to_multiset() =~= fmap(s.remove(i), f).to_multiset().add(opt_ms(f(s[i]))));
    }
}

/// Filtering and mapping sequences with the same elements, counted with
/// multiplicity, gives sequences with the same elements.
pub proof fn lemma_fmap_multiset<A, B>(a: Seq<A>, b: Seq<A>, f: spec_fn(A) -> Option<B>)
    requires
        a.to_multiset() == b.to_multiset(),
    ensures
        fmap(a, f).to_multiset() == fmap(b, f).to_multiset(),
    decreases a.len(),
{
    broadcast use vstd::seq_lib::group_to_multiset_ensures;
    broadcast use vstd::multiset::group_multiset_axioms;

    if a.len() == 0 {
        vstd::seq_lib::to_multiset_len(a);
        vstd::seq_lib::to_multiset_len(b);
        assert(b.len() == 0);
        assert(fmap(a, f) =~= fmap(b, f));
    } else {
        let x = a.last();
        let a1 = a.drop_last();
        assert(a1.push(x) =~= a);
        to_multiset_build(a1, x);
        assert(b.to_multiset().count(x) > 0);
        assert(b.contains(x));
        let i = choose|i: int| 0 <= i < b.len() && b[i] == x;
        let b1 = b.remove(i);
        vstd::seq_lib::to_multiset_remove(b, i);
        assert(a1.to_multiset() =~= b1.to_multiset());
        lemma_fmap_multiset(a1, b1, f);
        lemma_fmap_last(a, f);
        lemma_fmap_remove(b, f, i);
    }
}

pub open spec fn file_sel(plen: int) -> spec_fn(EntryView) -> Option<ItemView> {
    |e: EntryView| if is_file_at(e, plen) { Some(file_item(e, plen)) } else { None }
}

pub open spec fn under_sel(q: Seq<u8>) -> spec_fn(EntryView) -> Option<EntryView> {
    |e: EntryView| if starts_with(e.2, q) { Some(e) } else { None }
}

proof fn lemma_level_files_fmap(s: Seq<EntryView>, plen: int)
    ensures
        level_files(s, plen) == fmap(s, file_sel(plen)),
    decreases s.len(),
{
    if s.len() > 0 {
        lemma_level_files_fmap(s.drop_last(), plen);
    }
}

proof fn lemma_under_fmap(s: Seq<EntryView>, q: Seq<u8>)
    ensures
        under(s, q) == fmap(s, under_sel(q)),
    decreases s.len(),
{
    if s.len() > 0 {
        lemma_under_fmap(s.drop_last(), q);
    }
}

proof fn lemma_level_dirs_props(s: Seq<EntryView>, plen: int)
    ensures
        level_dirs(s, plen).no_duplicates(),
        forall|d: Seq<u8>|
            #[trigger] level_dirs(s, plen).contains(d) <==> exists|k: int|
                0 <= k < s.len() && !is_file_at(#[trigger] s[k], plen) && dir_name(s[k], plen) == d,
    decreases s.len(),
{
    if s.len() > 0 {
        let s1 = s.drop_last();
        lemma_level_dirs_props(s1, plen);
        let r = level_dirs(s1, plen);
        let e = s.last();
        assert forall|d: Seq<u8>|
            #[trigger] level_dirs(s, plen).contains(d) <==> exists|k: int|
                0 <= k < s.len() && !is_file_at(#[trigger] s[k], plen) && dir_name(s[k], plen) == d by {
            if level_dirs(s, plen).contains(d) {
                let j = choose|j: int| 0 <= j < level_dirs(s, plen).len() && level_dirs(s, plen)[j] == d;
                if j < r.len() {
                    assert(r[j] == d);
                    assert(r.contains(d));
                    let k = choose|k: int| 0 <= k < s1.len() && !is_file_at(#[trigger] s1[k], plen) && dir_name(s1[k], plen) == d;
                    assert(s[k] == s1[k]);
                } else {
                    assert(!is_file_at(s[s.len() - 1], plen) && dir_name(s[s.len() - 1], plen) == d);
                }
            }
            if exists|k: int| 0 <= k < s.len() && !is_file_at(#[trigger] s[k], plen) && dir_name(s[k], plen) == d {
                let k = choose|k: int| 0 <= k < s.len() && !is_file_at(#[trigger] s[k], plen) && dir_name(s[k], plen) == d;
                if k < s.len() - 1 {
                    assert(s1[k] == s[k]);
                    assert(r.contains(d));
                    let j = choose|j: int| 0 <= j < r.len() && r[j] == d;
                    assert(level_dirs(s, plen)[j] == d);
                } else if r.contains(d) {
                    let j = choose|j: int| 0 <= j < r.len() && r[j] == d;
                    assert(level_dirs(s, plen)[j] == d);
                } else {
                    assert(level_dirs(s, plen)[r.len() as int] == d);
                }
            }
        }
        if !is_file_at(e, plen) && !r.contains(dir_name(e, plen)) {
            assert forall|i: int, j: int|
                0 <= i < j < r.push(dir_name(e, plen)).len() implies r.push(dir_name(e, plen))[i] != r.push(
                dir_name(e, plen),
            )[j] by {
                if j == r.len() {
                    assert(r.contains(r[i]));
                }
            }
        }
    }
}

proof fn lemma_same_elements_multiset<A>(x: Seq<A>, y: Seq<A>)
    requires
        x.no_duplicates(),
        y.no_duplicates(),
        forall|d: A| x.contains(d) <==> y.contains(d),
    ensures
        x.to_multiset() == y.to_multiset(),
{
    broadcast use vstd::seq_lib::group_to_multiset_ensures;
    broadcast use vstd::multiset::group_multiset_axioms;

    x.lemma_multiset_has_no_duplicates();
    y.lemma_multiset_has_no_duplicates();
    assert forall|d: A| x.to_multiset().count(d) == y.to_multiset().count(d) by {
        if x.contains(d) {
            assert(x.to_multiset().count(d) == 1);
            assert(y.to_multiset().count(d) == 1);
        }
    }
    assert(x.to_multiset() =~= y.to_multiset());
}

/// The subtree item for subdirectory `d`.
pub open spec fn dir_item(es: Seq<EntryView>, prefix: Seq<u8>, d: Seq<u8>, fuel: nat) -> ItemView {
    let q = prefix + d + seq![47u8];
    (
        FileMode::Directory,
        d,
        if d.len() + 1 <= fuel {
            object_id(ObjectKind::Tree, tree_content_of(under(es, q), q, (fuel - d.len() - 1) as nat))
        } else {
            Seq::empty()
        },
    )
}

proof fn lemma_dir_items_map(es: Seq<EntryView>, prefix: Seq<u8>, names: Seq<Seq<u8>>, fuel: nat)
    ensures
        dir_items(es, prefix, names, fuel) == names.map_values(|d: Seq<u8>| dir_item(es, prefix, d, fuel)),
    decreases names.len(),
{
    if names.len() > 0 {
        lemma_dir_items_map(es, prefix, names.drop_last(), fuel);
        assert(names.map_values(|d: Seq<u8>| dir_item(es, prefix, d, fuel)) =~= names.drop_last().map_values(
            |d: Seq<u8>| dir_item(es, prefix, d, fuel),
        ).push(dir_item(es, prefix, names.last(), fuel)));
    } else {
        assert(names.map_values(|d: Seq<u8>| dir_item(es, prefix, d, fuel)) =~= Seq::<ItemView>::empty());
    }
}

proof fn lemma_contains_same<A>(a: Seq<A>, b: Seq<A>)
    requires
        a.to_multiset() == b.to_multiset(),
    ensures
        forall|x: A| a.contains(x) <==> b.contains(x),
{
    broadcast use vstd::seq_lib::group_to_multiset_ensures;

    assert forall|x: A| a.contains(x) <==> b.contains(x) by {
        vstd::seq_lib::to_multiset_contains(a, x);
        vstd::seq_lib::to_multiset_contains(b, x);
    }
}

/// The content of the tree for the directory `prefix` depends only on which
/// entries are staged, not on their order.
pub proof fn lemma_tree_content_permutation(a: Seq<EntryView>, b: Seq<EntryView>, prefix: Seq<u8>, fuel: nat)
    requires
        a.to_multiset() == b.to_multiset(),
    ensures
        tree_content_of(a, prefix, fuel) == tree_content_of(b, prefix, fuel),
    decreases fuel,
{
    broadcast use vstd::multiset::group_multiset_axioms;

    let plen = prefix.len() as int;
    lemma_level_files_fmap(a, plen);
    lemma_level_files_fmap(b, plen);
    lemma_fmap_multiset(a, b, file_sel(plen));
    let na = level_dirs(a, plen);
    let nb = level_dirs(b, plen);
    lemma_level_dirs_props(a, plen);
    lemma_level_dirs_props(b, plen);
    lemma_contains_same(a, b);
    assert forall|d: Seq<u8>| na.contains(d) <==> nb.contains(d) by {
        if na.contains(d) {
            let k = choose|k: int| 0 <= k < a.len() && !is_file_at(#[trigger] a[k], plen) && dir_name(a[k], plen) == d;
            assert(a.contains(a[k]));
            assert(b.contains(a[k]));
            let m = choose|m: int| 0 <= m < b.len() && b[m] == a[k];
            assert(!is_file_at(b[m], plen) && dir_name(b[m], plen) == d);
        }
        if nb.contains(d) {
            let k = choose|k: int| 0 <= k < b.len() && !is_file_at(#[trigger] b[k], plen) && dir_name(b[k], plen) == d;
            assert(b.contains(b[k]));
            assert(a.contains(b[k]));
            let m = choose|m: int| 0 <= m < a.len() && a[m] == b[k];
            assert(!is_file_at(a[m], plen) && dir_name(a[m], plen) == d);
        }
    }
    lemma_same_elements_multiset(na, nb);
    let ga = |d: Seq<u8>| dir_item(a, prefix, d, fuel);
    let gb = |d: Seq<u8>| dir_item(b, prefix, d, fuel);
    assert forall|d: Seq<u8>| #[trigger] ga(d) == gb(d) by {
        let q = prefix + d + seq![47u8];
        if d.len() + 1 <= fuel {
            lemma_under_fmap(a, q);
            lemma_under_fmap(b, q);
            lemma_fmap_multiset(a, b, under_sel(q));
            lemma_tree_content_permutation(under(a, q), under(b, q), q, (fuel - d.len() - 1) as nat);
        }
    }
    lemma_dir_items_map(a, prefix, na, fuel);
    lemma_dir_items_map(b, prefix, nb, fuel);
    lemma_map_values_multiset(na, nb, ga);
    assert(nb.map_values(ga) =~= nb.map_values(gb));
    let ia = level_files(a, plen) + dir_items(a, prefix, na, fuel);
    let ib = level_files(b, plen) + dir_items(b, prefix, nb, fuel);
    vstd::seq_lib::lemma_multiset_commutative(level_files(a, plen), dir_items(a, prefix, na, fuel));
    vstd::seq_lib::lemma_multiset_commutative(level_files(b, plen), dir_items(b, prefix, nb, fuel));
    lemma_tree_order_independent(ia, ib);
}

proof fn lemma_max_path_len_props(s: Seq<EntryView>)
    ensures
        forall|k: int| 0 <= k < s.len() ==> (#[trigger] s[k]).2.len() <= max_path_len(s),
        s.len() > 0 ==> exists|k: int| 0 <= k < s.len() && (#[trigger] s[k]).2.len() == max_path_len(s),
        s.len() == 0 ==> max_path_len(s) == 0,
    decreases s.len(),
{
    lemma_max_path_len(s);
    if s.len() > 0 {
        lemma_max_path_len_props(s.drop_last());
        if s.last().2.len() > max_path_len(s.drop_last()) {
            assert(s[s.len() - 1].2.len() == max_path_len(s));
        } else if s.len() > 1 {
            let k = choose|k: int| 0 <= k < s.drop_last().len() && (#[trigger] s.drop_last()[k]).2.len() == max_path_len(s.drop_last());
            assert(s[k] == s.drop_last()[k]);
        } else {
            assert(s[0].2.len() == max_path_len(s));
        }
    }
}

/// Tree determinism: staging the same entries in any order gives the same
/// root tree content, hence the same root tree identity.
pub proof fn lemma_tree_determinism(a: Seq<EntryView>, b: Seq<EntryView>)
    requires
        a.to_multiset() == b.to_multiset(),
    ensures
        root_tree_content(a) == root_tree_content(b),
        object_id(ObjectKind::Tree, root_tree_content(a)) == object_id(ObjectKind::Tree, root_tree_content(b)),
{
    broadcast use vstd::seq_lib::group_to_multiset_ensures;

    lemma_contains_same(a, b);
    lemma_max_path_len_props(a);
    lemma_max_path_len_props(b);
    vstd::seq_lib::to_multiset_len(a);
    vstd::seq_lib::to_multiset_len(b);
    if a.len() > 0 {
        let k = choose|k: int| 0 <= k < a.len() && (#[trigger] a[k]).2.len() == max_path_len(a);
        assert(a.contains(a[k]));
        assert(b.contains(a[k]));
        let m = choose|m: int| 0 <= m < b.len() && b[m] == a[k];
        let k2 = choose|k: int| 0 <= k < b.len() && (#[trigger] b[k]).2.len() == max_path_len(b);
        assert(b.contains(b[k2]));
        assert(a.contains(b[k2]));
        let m2 = choose|m: int| 0 <= m < a.len() && a[m] == b[k2];
        assert(a[m2].2.len() <= max_path_len(a));
        assert(b[m].2.len() <= max_path_len(b));
    }
    assert(max_path_len(a) == max_path_len(b));
    lemma_tree_content_permutation(a, b, Seq::empty(), max_path_len(a));
}

} // verus!

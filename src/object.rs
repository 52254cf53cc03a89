//! The content-addressed object store: framing, hashing and an in-memory
//! image of the object database.

use crate::codec::{
    bytes_eq, copy_range, decimal, find_byte, find_from, push_all, push_decimal, sha1_digest,
    sha1_of, zlib_compress, zlib_decompress, zlib_of, inflate_of, hex_of, to_hex,
};
use crate::error::RitError;
use vstd::prelude::*;

verus! {

/// The three kinds of stored object.
#[derive(Debug, Clone, Copy, PartialEq, Eq, Structural)]
pub enum ObjectKind {
    Blob,
    Tree,
    Commit,
}

/// The kind's name as it stands in an object header.
pub open spec fn kind_name(k: ObjectKind) -> Seq<u8> {
    match k {
        ObjectKind::Blob => seq![98u8, 108, 111, 98],
        ObjectKind::Tree => seq![116u8, 114, 101, 101],
        ObjectKind::Commit => seq![99u8, 111, 109, 109, 105, 116],
    }
}

/// `"<kind> <length>\0" + content`: the bytes that are hashed and stored.
pub open spec fn framed(k: ObjectKind, content: Seq<u8>) -> Seq<u8> {
    kind_name(k) + seq![32u8] + decimal(content.len()) + seq![0u8] + content
}

/// The identity of an object: the SHA-1 digest of its framed bytes.
pub open spec fn object_id(k: ObjectKind, content: Seq<u8>) -> Seq<u8> {
    sha1_of(framed(k, content))
}

/// What follows the first zero byte, or `None` when there is no zero byte.
pub open spec fn payload(stored: Seq<u8>) -> Option<Seq<u8>> {
    let p = find_from(stored, 0, 0);
    if p < stored.len() {
        Some(stored.subrange(p + 1, stored.len() as int))
    } else {
        None
    }
}

/// Frames `content` with the header of kind `k`.
pub fn frame_object(k: ObjectKind, content: &[u8]) -> (r: Vec<u8>)
    ensures
        r@ == framed(k, content@),
{
    let mut out: Vec<u8> = Vec::new();
    match k {
        ObjectKind::Blob => {
            out.push(98);
            out.push(108);
            out.push(111);
            out.push(98);
        },
        ObjectKind::Tree => {
            out.push(116);
            out.push(114);
            out.push(101);
            out.push(101);
        },
        ObjectKind::Commit => {
            out.push(99);
            out.push(111);
            out.push(109);
            out.push(109);
            out.push(105);
            out.push(116);
        },
    }
    assert(out@ =~= kind_name(k));
    out.push(32);
    push_decimal(&mut out, content.len() as u64);
    out.push(0);
    push_all(&mut out, content);
    assert(out@ =~= framed(k, content@));
    out
}

/// The raw 20-byte identity of an object of kind `k` holding `content`.
pub fn hash_object(k: ObjectKind, content: &[u8]) -> (r: Vec<u8>)
    ensures
        r@ == object_id(k, content@),
        r@.len() == 20,
{
    let f = frame_object(k, content);
    sha1_digest(f.as_slice())
}

/// The 40-digit lowercase hex identity of an object.
pub fn hash_object_hex(k: ObjectKind, content: &[u8]) -> (r: String)
    ensures
        r@ == hex_of(object_id(k, content@)),
{
    let id = hash_object(k, content);
    to_hex(id.as_slice())
}

/// The compressed form in which framed bytes are kept on disk.
pub fn compress(framed_bytes: &[u8]) -> (r: Vec<u8>)
    ensures
        r@ == zlib_of(framed_bytes@),
{
    match zlib_compress(framed_bytes) {
        Some(v) => v,
        None => Vec::new(),
    }
}

/// Decompresses an object file's bytes; fails with `InvalidData` when they are
/// not a zlib stream.
pub fn decompress(stored: &[u8]) -> (r: Result<Vec<u8>, RitError>)
    ensures
        match r {
            Ok(v) => inflate_of(stored@) == Some(v@),
            Err(e) => inflate_of(stored@) is None && e == RitError::InvalidData,
        },
{
    match zlib_decompress(stored) {
        Some(v) => Ok(v),
        None => Err(RitError::InvalidData),
    }
}

/// Strips the `"<kind> <length>\0"` header; fails with `InvalidData` when the
/// bytes hold no zero byte.
pub fn strip_header(stored: &[u8]) -> (r: Result<Vec<u8>, RitError>)
    ensures
        match r {
            Ok(v) => payload(stored@) == Some(v@),
            Err(e) => payload(stored@) is None && e == RitError::InvalidData,
        },
{
    let p = find_byte(stored, 0, 0);
    if p < stored.len() {
        Ok(copy_range(stored, p + 1, stored.len()))
    } else {
        Err(RitError::InvalidData)
    }
}

/// The header of framed bytes is taken off again by `payload`.
pub proof fn lemma_payload_of_framed(k: ObjectKind, content: Seq<u8>)
    ensures
        payload(framed(k, content)) == Some(content),
{
    let f = framed(k, content);
    let h = kind_name(k) + seq![32u8] + decimal(content.len());
    lemma_decimal_digits(content.len());
    assert forall|j: int| 0 <= j < h.len() implies f[j] != 0 by {
        if j >= kind_name(k).len() + 1 {
            assert(f[j] == decimal(content.len())[j - kind_name(k).len() - 1]);
        }
    }
    crate::codec::lemma_find_from_at(f, 0, h.len() as int, 0);
    assert(f.subrange(h.len() as int + 1, f.len() as int) =~= content);
}

/// Decimal text holds only digit bytes.
pub proof fn lemma_decimal_digits(n: nat)
    ensures
        forall|j: int| 0 <= j < decimal(n).len() ==> 48 <= #[trigger] decimal(n)[j] <= 57,
    decreases n,
{
    if n >= 10 {
        lemma_decimal_digits(n / 10);
        let d = decimal(n / 10);
        assert(decimal(n) == d + seq![(48 + n % 10) as u8]);
        assert forall|j: int| 0 <= j < decimal(n).len() implies 48 <= #[trigger] decimal(n)[j] <= 57 by {
            if j < d.len() {
                assert(decimal(n)[j] == d[j]);
            }
        }
    }
}

/// An in-memory image of the object database: framed objects keyed by their
/// raw 20-byte identity. It only grows, so the objects added since a given
/// length are those at the positions from that length on.
pub struct ObjectStore {
    ids: Vec<Vec<u8>>,
    objects: Vec<Vec<u8>>,
    contents: Ghost<Map<Seq<u8>, Seq<u8>>>,
}

impl View for ObjectStore {
    type V = Map<Seq<u8>, Seq<u8>>;

    closed spec fn view(&self) -> Map<Seq<u8>, Seq<u8>> {
        self.contents@
    }
}

impl ObjectStore {
    /// The stored positions agree with the map, one position per identity.
    pub closed spec fn wf(&self) -> bool {
        &&& self.ids@.len() == self.objects@.len()
        &&& forall|i: int|
            0 <= i < self.ids@.len() ==> self.contents@.contains_key(#[trigger] self.ids@[i]@)
                && self.contents@[self.ids@[i]@] == self.objects@[i]@
        &&& forall|k: Seq<u8>|
            #[trigger] self.contents@.contains_key(k) ==> exists|i: int|
                0 <= i < self.ids@.len() && self.ids@[i]@ == k
        &&& forall|i: int, j: int|
            0 <= i < j < self.ids@.len() ==> self.ids@[i]@ != self.ids@[j]@
    }

    /// The number of stored objects.
    pub closed spec fn spec_len(&self) -> nat {
        self.ids@.len()
    }

    /// The identity stored at position `i`.
    pub closed spec fn id_at(&self, i: int) -> Seq<u8> {
        self.ids@[i]@
    }

    pub proof fn lemma_len(&self)
        requires
            self.wf(),
        ensures
            self@.dom().finite(),
            self@.dom().len() == self.spec_len(),
            forall|i: int| 0 <= i < self.spec_len() ==> self@.contains_key(#[trigger] self.id_at(i)),
    {
        let ks = self.ids@.map_values(|v: Vec<u8>| v@);
        assert forall|i: int, j: int| 0 <= i < j < ks.len() implies ks[i] != ks[j] by {}
        assert(ks.no_duplicates());
        ks.unique_seq_to_set();
        assert(ks.to_set() =~= self@.dom()) by {
            assert forall|k: Seq<u8>| self@.dom().contains(k) implies ks.to_set().contains(k) by {
                let i = choose|i: int| 0 <= i < self.ids@.len() && self.ids@[i]@ == k;
                assert(ks[i] == k);
            }
        }
    }

    /// An empty store.
    pub fn new() -> (r: ObjectStore)
        ensures
            r.wf(),
            r@ == Map::<Seq<u8>, Seq<u8>>::empty(),
            r.spec_len() == 0,
    {
        ObjectStore { ids: Vec::new(), objects: Vec::new(), contents: Ghost(Map::empty()) }
    }

    /// The number of stored objects.
    pub fn len(&self) -> (r: usize)
        ensures
            r == self.spec_len(),
    {
        self.ids.len()
    }

    /// The identity and framed bytes stored at position `i`.
    pub fn entry(&self, i: usize) -> (r: (&Vec<u8>, &Vec<u8>))
        requires
            self.wf(),
            i < self.spec_len(),
        ensures
            r.0@ == self.id_at(i as int),
            self@.contains_key(r.0@),
            self@[r.0@] == r.1@,
    {
        (&self.ids[i], &self.objects[i])
    }

    fn position(&self, id: &[u8]) -> (r: Option<usize>)
        requires
            self.wf(),
        ensures
            match r {
                Some(i) => i < self.ids@.len() && self.ids@[i as int]@ == id@,
                None => !self@.contains_key(id@),
            },
    {
        let mut i: usize = 0;
        while i < self.ids.len()
            invariant
                self.wf(),
                i <= self.ids@.len(),
                forall|j: int| 0 <= j < i ==> self.ids@[j]@ != id@,
            decreases self.ids@.len() - i,
        {
            if bytes_eq(self.ids[i].as_slice(), id) {
                return Some(i);
            }
            i = i + 1;
        }
        None
    }

    /// Whether an object with identity `id` is stored.
    pub fn contains(&self, id: &[u8]) -> (r: bool)
        requires
            self.wf(),
        ensures
            r == self@.contains_key(id@),
    {
        self.position(id).is_some()
    }

    /// The framed bytes stored under `id`.
    pub fn get(&self, id: &[u8]) -> (r: Option<&Vec<u8>>)
        requires
            self.wf(),
        ensures
            match r {
                Some(v) => self@.contains_key(id@) && self@[id@] == v@,
                None => !self@.contains_key(id@),
            },
    {
        match self.position(id) {
            Some(i) => Some(&self.objects[i]),
            None => None,
        }
    }

    /// Stores `data` under `id` unless an object with that identity is
    /// already there, in which case nothing changes. Returns whether it was
    /// added.
    pub fn write_object(&mut self, id: &[u8], data: &[u8]) -> (added: bool)
        requires
            old(self).wf(),
        ensures
            final(self).wf(),
            added == !old(self)@.contains_key(id@),
            final(self)@ == (if added { old(self)@.insert(id@, data@) } else { old(self)@ }),
            final(self).spec_len() == old(self).spec_len() + (if added { 1int } else { 0 }),
            forall|i: int|
                0 <= i < old(self).spec_len() ==> #[trigger] final(self).id_at(i) == old(self).id_at(i),
    {
        if self.position(id).is_some() {
            return false;
        }
        let ghost old_map = self.contents@;
        let idv = copy_range(id, 0, id.len());
        let datav = copy_range(data, 0, data.len());
        assert(id@.subrange(0, id@.len() as int) =~= id@);
        assert(data@.subrange(0, data@.len() as int) =~= data@);
        self.ids.push(idv);
        self.objects.push(datav);
        self.contents = Ghost(old_map.insert(id@, data@));
        proof {
            let n = self.ids@.len() - 1;
            assert(self.ids@[n]@ == id@);
            assert forall|k: Seq<u8>| #[trigger] self.contents@.contains_key(k) implies exists|i: int|
                0 <= i < self.ids@.len() && self.ids@[i]@ == k by {
                if k != id@ {
                    let i = choose|i: int| 0 <= i < old(self).ids@.len() && old(self).ids@[i]@ == k;
                    assert(self.ids@[i]@ == k);
                }
            }
        }
        true
    }
}

/// `new` holds every object of `old`, unchanged and at the same position.
pub open spec fn store_extends(new: &ObjectStore, old: &ObjectStore) -> bool {
    &&& new.wf()
    &&& new.spec_len() >= old.spec_len()
    &&& forall|i: int| 0 <= i < old.spec_len() ==> #[trigger] new.id_at(i) == old.id_at(i)
    &&& forall|k: Seq<u8>| #[trigger] old@.contains_key(k) ==> new@.contains_key(k) && new@[k] == old@[k]
}

pub proof fn lemma_store_extends_refl(s: &ObjectStore)
    requires
        s.wf(),
    ensures
        store_extends(s, s),
{
}

/// The payload of the object stored under `id`: fails with `NotFound` when no
/// such object is stored and with `InvalidData` when its bytes hold no header.
pub fn read_object(store: &ObjectStore, id: &[u8]) -> (r: Result<Vec<u8>, RitError>)
    requires
        store.wf(),
    ensures
        match r {
            Ok(v) => store@.contains_key(id@) && payload(store@[id@]) == Some(v@),
            Err(e) => (!store@.contains_key(id@) && e == RitError::NotFound) || (
            store@.contains_key(id@) && payload(store@[id@]) is None && e
                == RitError::InvalidData),
        },
{
    match store.get(id) {
        Some(data) => strip_header(data.as_slice()),
        None => Err(RitError::NotFound),
    }
}

/// Frames `content` as an object of kind `k`, stores it, and returns its
/// identity.
pub fn store_object(store: &mut ObjectStore, k: ObjectKind, content: &[u8]) -> (r: Vec<u8>)
    requires
        old(store).wf(),
    ensures
        final(store).wf(),
        r@ == object_id(k, content@),
        final(store)@ == after_store(old(store)@, k, content@),
        final(store)@.contains_key(r@),
        final(store).spec_len() >= old(store).spec_len(),
        forall|i: int|
            0 <= i < old(store).spec_len() ==> #[trigger] final(store).id_at(i) == old(store).id_at(i),
        store_extends(final(store), old(store)),
{
    let f = frame_object(k, content);
    let id = sha1_digest(f.as_slice());
    store.write_object(id.as_slice(), f.as_slice());
    id
}

/// The store after an object of kind `k` holding `content` is written into
/// `m`: unchanged when an object of that identity is already present.
pub open spec fn after_store(m: Map<Seq<u8>, Seq<u8>>, k: ObjectKind, content: Seq<u8>) -> Map<
    Seq<u8>,
    Seq<u8>,
> {
    let id = object_id(k, content);
    if m.contains_key(id) {
        m
    } else {
        m.insert(id, framed(k, content))
    }
}

/// The store after the tree objects with contents `cs` are written into
/// `m`, in order.
pub open spec fn after_all(m: Map<Seq<u8>, Seq<u8>>, cs: Seq<Seq<u8>>) -> Map<Seq<u8>, Seq<u8>>
    decreases cs.len(),
{
    if cs.len() == 0 {
        m
    } else {
        after_store(after_all(m, cs.drop_last()), ObjectKind::Tree, cs.last())
    }
}

pub proof fn lemma_after_all_concat(m: Map<Seq<u8>, Seq<u8>>, a: Seq<Seq<u8>>, b: Seq<Seq<u8>>)
    ensures
        after_all(m, a + b) == after_all(after_all(m, a), b),
    decreases b.len(),
{
    if b.len() == 0 {
        assert(a + b =~= a);
    } else {
        assert((a + b).drop_last() =~= a + b.drop_last());
        assert((a + b).last() == b.last());
        lemma_after_all_concat(m, a, b.drop_last());
    }
}

/// Content addressing: writing the same content a second time yields the same
/// identity (`object_id` depends on kind and content alone) and leaves the
/// store exactly as the first write left it, with one object under that
/// identity; when no object had that identity before, it holds the framed
/// content, which reads back unchanged.
pub proof fn lemma_content_addressing(m: Map<Seq<u8>, Seq<u8>>, k: ObjectKind, b: Seq<u8>)
    ensures
        after_store(after_store(m, k, b), k, b) == after_store(m, k, b),
        after_store(m, k, b).contains_key(object_id(k, b)),
        after_store(m, k, b).dom() == m.dom().insert(object_id(k, b)),
        !m.contains_key(object_id(k, b)) ==> after_store(m, k, b)[object_id(k, b)] == framed(k, b)
            && payload(after_store(after_store(m, k, b), k, b)[object_id(k, b)]) == Some(b),
{
    lemma_payload_of_framed(k, b);
    assert(after_store(m, k, b).dom() =~= m.dom().insert(object_id(k, b)));
}

} // verus!

verus! {

/// Reading back an object that a write added yields the content written.
pub proof fn lemma_read_after_store(m: Map<Seq<u8>, Seq<u8>>, k: ObjectKind, content: Seq<u8>)
    requires
        !m.contains_key(object_id(k, content)),
    ensures
        after_store(m, k, content).contains_key(object_id(k, content)),
        payload(after_store(m, k, content)[object_id(k, content)]) == Some(content),
{
    lemma_payload_of_framed(k, content);
}

} // verus!

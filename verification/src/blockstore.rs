//! The content-addressed block store: a backend capability (`FFIStore`),
//! a verified in-memory backend, and the adapter that derives every block's
//! identifier from its content before delegating to the backend.

use vstd::prelude::*;

use crate::codec::{bytes_eq, push_u64_le, u64_le_seq};
use crate::crypto::{digest32, digest_of};
use crate::errors::FsError;

verus! {

/// The identifier of one immutable block: the digest of its codec and bytes.
/// Identical content always carries the identical identifier.
pub struct ContentId {
    pub bytes: Vec<u8>,
}

impl View for ContentId {
    type V = Seq<u8>;

    closed spec fn view(&self) -> Seq<u8> {
        self.bytes@
    }
}

impl ContentId {
    /// An independent copy of this identifier.
    pub fn duplicate(&self) -> (r: ContentId)
        ensures
            r@ == self@,
    {
        ContentId { bytes: clone_bytes(&self.bytes) }
    }
}

/// The identifier assigned to a block of `bytes` stored under `codec`.
pub open spec fn content_id_of(bytes: Seq<u8>, codec: u64) -> Seq<u8> {
    digest_of(u64_le_seq(codec) + bytes)
}

/// An independent copy of a byte vector.
pub fn clone_bytes(v: &Vec<u8>) -> (r: Vec<u8>)
    ensures
        r@ == v@,
{
    let mut out: Vec<u8> = Vec::new();
    let mut i: usize = 0;
    while i < v.len()
        invariant
            i <= v@.len(),
            out@ == v@.subrange(0, i as int),
        decreases v.len() - i,
    {
        out.push(v[i]);
        i = i + 1;
        assert(out@ =~= v@.subrange(0, i as int));
    }
    proof {
        assert(v@.subrange(0, v@.len() as int) =~= v@);
    }
    out
}

/// A backend that persists opaque blocks under caller-chosen identifiers.
/// Its abstract state is the map of stored blocks; `get_block` is faithful
/// to that map, and `put_block` either records the block or fails leaving
/// the map unchanged.
pub trait FFIStore: Sized {
    /// The blocks the backend currently holds. Verified backends give this
    /// their real contents; unverified ones may leave the default.
    open spec fn store_view(&self) -> Map<Seq<u8>, Seq<u8>> {
        Map::empty()
    }

    /// Fetches the block stored under `cid`.
    fn get_block(&self, cid: &Vec<u8>) -> (r: Result<Vec<u8>, FsError>)
        ensures
            match r {
                Ok(b) => self.store_view().contains_key(cid@) && b@ == self.store_view()[cid@],
                Err(e) => e == FsError::NotFound && !self.store_view().contains_key(cid@),
            },
    ;

    /// Records `bytes` under `cid`, or fails without changing anything.
    fn put_block(&mut self, cid: Vec<u8>, bytes: Vec<u8>) -> (r: Result<(), FsError>)
        ensures
            match r {
                Ok(_) => final(self).store_view() == old(self).store_view().insert(cid@, bytes@),
                Err(e) => e == FsError::BackendError && final(self).store_view() == old(
                    self,
                ).store_view(),
            },
    ;
}

// ---------------------------------------------------------------------------
// a verified in-memory backend
// ---------------------------------------------------------------------------

/// The map described by an association list, later entries winning.
pub open spec fn assoc_map(s: Seq<(Vec<u8>, Vec<u8>)>) -> Map<Seq<u8>, Seq<u8>>
    decreases s.len(),
{
    if s.len() == 0 {
        Map::empty()
    } else {
        assoc_map(s.drop_last()).insert(s.last().0@, s.last().1@)
    }
}

/// A key that no entry carries is not in the map.
proof fn lemma_assoc_absent(s: Seq<(Vec<u8>, Vec<u8>)>, k: Seq<u8>)
    requires
        forall|j: int| 0 <= j < s.len() ==> s[j].0@ != k,
    ensures
        !assoc_map(s).contains_key(k),
    decreases s.len(),
{
    if s.len() > 0 {
        lemma_assoc_absent(s.drop_last(), k);
    }
}

/// The latest entry carrying a key gives the map's value at that key.
proof fn lemma_assoc_found(s: Seq<(Vec<u8>, Vec<u8>)>, i: int, k: Seq<u8>)
    requires
        0 <= i < s.len(),
        s[i].0@ == k,
        forall|j: int| i < j < s.len() ==> s[j].0@ != k,
    ensures
        assoc_map(s).contains_key(k),
        assoc_map(s)[k] == s[i].1@,
    decreases s.len(),
{
    if i == s.len() - 1 {
    } else {
        lemma_assoc_found(s.drop_last(), i, k);
    }
}

/// An in-memory backend: an append-only list of identifier/block pairs.
pub struct MemoryStore {
    blocks: Vec<(Vec<u8>, Vec<u8>)>,
}

impl MemoryStore {
    /// An empty backend.
    pub fn new() -> (r: MemoryStore)
        ensures
            r.store_view() == Map::<Seq<u8>, Seq<u8>>::empty(),
    {
        MemoryStore { blocks: Vec::new() }
    }
}

impl FFIStore for MemoryStore {
    closed spec fn store_view(&self) -> Map<Seq<u8>, Seq<u8>> {
        assoc_map(self.blocks@)
    }

    fn get_block(&self, cid: &Vec<u8>) -> (r: Result<Vec<u8>, FsError>) {
        let mut i: usize = self.blocks.len();
        while i > 0
            invariant
                i <= self.blocks@.len(),
                forall|j: int| i <= j < self.blocks@.len() ==> self.blocks@[j].0@ != cid@,
            decreases i,
        {
            i = i - 1;
            if bytes_eq(self.blocks[i].0.as_slice(), cid.as_slice()) {
                proof {
                    lemma_assoc_found(self.blocks@, i as int, cid@);
                }
                return Ok(clone_bytes(&self.blocks[i].1));
            }
        }
        proof {
            lemma_assoc_absent(self.blocks@, cid@);
        }
        Err(FsError::NotFound)
    }

    fn put_block(&mut self, cid: Vec<u8>, bytes: Vec<u8>) -> (r: Result<(), FsError>) {
        let ghost old_blocks = self.blocks@;
        self.blocks.push((cid, bytes));
        proof {
            assert(self.blocks@.drop_last() =~= old_blocks);
        }
        Ok(())
    }
}

// ---------------------------------------------------------------------------
// the content-addressing adapter
// ---------------------------------------------------------------------------

/// Wraps a backend and derives each block's identifier from its content, so
/// that writing identical content twice stores it under the same identifier.
pub struct FFIFriendlyBlockStore<S: FFIStore> {
    pub ffi_store: S,
}

impl<S: FFIStore> FFIFriendlyBlockStore<S> {
    /// Wraps the given backend.
    pub fn new(ffi_store: S) -> (r: FFIFriendlyBlockStore<S>)
        ensures
            r.ffi_store == ffi_store,
    {
        FFIFriendlyBlockStore { ffi_store }
    }

    /// Fetches the block stored under `cid`; fails with `NotFound` when the
    /// identifier is unknown.
    pub fn get_block(&self, cid: &ContentId) -> (r: Result<Vec<u8>, FsError>)
        ensures
            match r {
                Ok(b) => self.ffi_store.store_view().contains_key(cid@) && b@
                    == self.ffi_store.store_view()[cid@],
                Err(e) => e == FsError::NotFound && !self.ffi_store.store_view().contains_key(
                    cid@,
                ),
            },
    {
        self.ffi_store.get_block(&cid.bytes)
    }

    /// Stores `bytes` under the identifier derived from its content and the
    /// codec, and returns that identifier.
    pub fn put_block(&mut self, bytes: Vec<u8>, codec: u64) -> (r: Result<ContentId, FsError>)
        ensures
            match r {
                Ok(id) => id@ == content_id_of(bytes@, codec) && final(self).ffi_store.store_view()
                    == old(self).ffi_store.store_view().insert(id@, bytes@),
                Err(e) => e == FsError::BackendError && final(self).ffi_store.store_view() == old(
                    self,
                ).ffi_store.store_view(),
            },
    {
        let mut prefixed: Vec<u8> = Vec::new();
        push_u64_le(&mut prefixed, codec);
        crate::codec::append_bytes(&mut prefixed, bytes.as_slice());
        let id_bytes = digest32(prefixed.as_slice());
        let id = ContentId { bytes: clone_bytes(&id_bytes) };
        match self.ffi_store.put_block(id_bytes, bytes) {
            Ok(_) => Ok(id),
            Err(e) => Err(e),
        }
    }
}

} // verus!

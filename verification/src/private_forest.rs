//! The session façade: a forest, a root directory tree and the symmetric
//! access material, wired together over a block store. Every mutation
//! follows the two-phase pattern: change the in-memory tree, seal the new
//! snapshot into the forest, serialize the forest, and hand the caller the
//! new root content identifier to persist as the next head.

use vstd::prelude::*;
use vstd::utf8::encode_utf8;

use crate::blockstore::{clone_bytes, content_id_of, ContentId, FFIFriendlyBlockStore, FFIStore};
use crate::crypto::{bytes_to_hex, hex_of, now_seconds, open, open_spec, random_bytes32, seal, seal_spec};
use crate::directory::{
    ancestor_conflict, cp_post, dec_fs_spec, enc_fs, file_content, is_prefix, mkdir_post, mv_post,
    path_of, rm_post, write_post, Metadata, NodeView, PrivateDirectory,
};
use crate::errors::FsError;
use crate::exchange::{rsa_keygen_ok, rsa_modulus_of, PublicExchangeKey, SeededExchangeKey, RAW_CODEC};
use crate::forest::{dec_forest_spec, enc_forest, latest_of, EntryView, Forest, FOREST_CODEC};
use crate::sharing::{
    create_share_name, enc_access_key, find_latest_share_counter, receive_share, receive_spec,
    run_end, share, share_name_of, slot_used, AccessKey,
};

verus! {

/// Whether a session exists and, if so, which symmetric seed it used. A
/// convenience cache handed to `reload`, never a source of truth.
pub struct SessionState {
    pub initialized: bool,
    pub wnfs_key: Vec<u8>,
}

impl SessionState {
    /// A fresh, uninitialized session record.
    pub fn new() -> (r: SessionState)
        ensures
            !r.initialized,
            r.wnfs_key@ == Seq::<u8>::empty(),
    {
        let r = SessionState { initialized: false, wnfs_key: Vec::new() };
        proof {
            assert(r.wnfs_key@ =~= Seq::<u8>::empty());
        }
        r
    }

    /// Records whether a session exists and the seed it used.
    pub fn update(&mut self, initialized: bool, wnfs_key: Vec<u8>)
        ensures
            final(self).initialized == initialized,
            final(self).wnfs_key@ == wnfs_key@,
    {
        self.initialized = initialized;
        self.wnfs_key = wnfs_key;
    }
}

/// How many share slots the session probes before giving up the search for
/// an unbroken run of occupied slots.
pub const SHARE_PROBE_LIMIT: u64 = 1000;

/// The counter at which a loader probing slots from zero finds the owner's
/// own share: the first slot when it is free, otherwise the end of the
/// unbroken run of occupied slots, probed no further than the limit. A
/// deterministic function of the forest contents.
pub open spec fn probe_counter(
    entries: Seq<EntryView>,
    setup: Seq<u8>,
    did: Seq<u8>,
    modulus: Seq<u8>,
) -> u64 {
    if !slot_used(entries, setup, 0u64, did, modulus) {
        0u64
    } else {
        run_end(entries, setup, did, modulus, 0u64, SHARE_PROBE_LIMIT)
    }
}

/// The slot at which a sharer probing from zero places the next share: the
/// first slot when it is free, otherwise one past the unbroken run of
/// occupied slots.
pub open spec fn next_share_counter(
    entries: Seq<EntryView>,
    setup: Seq<u8>,
    did: Seq<u8>,
    modulus: Seq<u8>,
) -> u64 {
    if !slot_used(entries, setup, 0u64, did, modulus) {
        0u64
    } else {
        (run_end(entries, setup, did, modulus, 0u64, SHARE_PROBE_LIMIT) + 1) as u64
    }
}

/// When `mv` and `cp` accept a pair of paths: both non-empty, the target not
/// at or under the source, the source present, the target absent and none of
/// its ancestors a file.
pub open spec fn relocation_accepted(
    d: PrivateDirectory,
    src: Seq<Seq<char>>,
    dst: Seq<Seq<char>>,
) -> bool {
    &&& src.len() >= 1
    &&& dst.len() >= 1
    &&& !is_prefix(src, dst)
    &&& d.lookup(src) is Some
    &&& d.lookup(dst) is None
    &&& !ancestor_conflict(d, dst)
}

/// Which error `mv` and `cp` return on which pair of paths: `InvalidInput`
/// for an empty path or a target at or under the source, `NotFound` for an
/// absent source, `AlreadyExists` for an occupied target or a file ancestor.
pub open spec fn relocation_rejected(
    d: PrivateDirectory,
    src: Seq<Seq<char>>,
    dst: Seq<Seq<char>>,
    e: FsError,
) -> bool {
    ||| (e == FsError::InvalidInput && (src.len() == 0 || dst.len() == 0 || is_prefix(src, dst)))
    ||| (e == FsError::NotFound && src.len() >= 1 && dst.len() >= 1 && !is_prefix(src, dst)
        && d.lookup(src) is None)
    ||| (e == FsError::AlreadyExists && src.len() >= 1 && dst.len() >= 1 && !is_prefix(src, dst)
        && d.lookup(src) is Some && (d.lookup(dst) is Some || ancestor_conflict(d, dst)))
}

/// One session over one filesystem: the block store, the forest, the loaded
/// root directory, and the access key of the root's snapshot chain.
pub struct PrivateDirectoryHelper<S: FFIStore> {
    pub store: FFIFriendlyBlockStore<S>,
    forest: Forest,
    root_dir: PrivateDirectory,
    access: AccessKey,
    depth: u64,
}

impl<S: FFIStore> PrivateDirectoryHelper<S> {
    /// The forest this session grows.
    pub closed spec fn spec_forest(&self) -> Forest {
        self.forest
    }

    /// The in-memory root directory tree.
    pub closed spec fn spec_root_dir(&self) -> PrivateDirectory {
        self.root_dir
    }

    /// The root access material: the snapshot label and the symmetric key.
    pub closed spec fn spec_access(&self) -> (Seq<u8>, Seq<u8>) {
        self.access@
    }

    /// The version counter of the last committed snapshot.
    pub closed spec fn spec_depth(&self) -> u64 {
        self.depth
    }

    /// The blocks the session's store currently holds.
    pub closed spec fn spec_store_view(&self) -> Map<Seq<u8>, Seq<u8>> {
        self.store.ffi_store.store_view()
    }

    /// The session invariant: both structures are well formed, and the
    /// snapshot label carries the tag byte that keeps it apart from share
    /// slots.
    pub open spec fn wf(&self) -> bool {
        &&& self.spec_forest().wf()
        &&& self.spec_root_dir().wf()
        &&& self.spec_access().0.len() == 33
        &&& self.spec_access().0[0] == 0u8
        &&& self.spec_access().1.len() == 32
    }

    /// A reference to the forest.
    pub fn forest(&self) -> (r: &Forest)
        ensures
            *r == self.spec_forest(),
    {
        &self.forest
    }

    /// A reference to the root directory.
    pub fn root_dir(&self) -> (r: &PrivateDirectory)
        ensures
            *r == self.spec_root_dir(),
    {
        &self.root_dir
    }

    /// Whether another snapshot can still be committed: the version counter
    /// and the forest have not reached their machine limits.
    pub fn can_commit(&self) -> (r: bool)
        ensures
            r == (self.spec_depth() < u64::MAX && self.spec_forest().view_entries().len()
                < u64::MAX),
    {
        self.depth < u64::MAX && self.forest.entry_count() < u64::MAX
    }

    /// A copy of the session's access key.
    pub fn duplicate_access(&self) -> (r: AccessKey)
        ensures
            r@ == self.spec_access(),
    {
        self.access.duplicate()
    }

    /// Renders bytes as lowercase hex, the form used for owner identities.
    pub fn bytes_to_hex_str(bytes: &[u8]) -> (r: String)
        ensures
            r@ == hex_of(bytes@),
    {
        bytes_to_hex(bytes)
    }

    /// What a successful commit leaves behind: a new sealed snapshot of the
    /// tree appended under the session's label with the next version marker,
    /// the re-serialized forest stored, and its content identifier returned.
    pub open spec fn committed(h0: Self, h1: Self, id: Seq<u8>) -> bool {
        let plain = enc_fs(h1.spec_root_dir().fs_view());
        let cipher = seal_spec(h0.spec_access().1, plain);
        let entry = (h0.spec_access().0, (h0.spec_depth() + 1) as u64, cipher);
        let fb = enc_forest(
            h0.spec_forest().setup_view(),
            h0.spec_forest().view_entries().push(entry),
        );
        &&& h1.spec_access() == h0.spec_access()
        &&& h1.spec_depth() == h0.spec_depth() + 1
        &&& h1.spec_forest().setup_view() == h0.spec_forest().setup_view()
        &&& h1.spec_forest().view_entries() == h0.spec_forest().view_entries().push(entry)
        &&& id == content_id_of(fb, FOREST_CODEC)
        &&& h1.spec_store_view() == h0.spec_store_view().insert(id, fb)
        &&& open_spec(h0.spec_access().1, cipher) == Some(plain)
    }

    /// Like `committed`, but the final forest serialization failed: the new
    /// snapshot lives in memory, the store is untouched, so the previously
    /// persisted root identifier remains the valid head.
    pub open spec fn advanced_unpersisted(h0: Self, h1: Self) -> bool {
        let plain = enc_fs(h1.spec_root_dir().fs_view());
        let cipher = seal_spec(h0.spec_access().1, plain);
        let entry = (h0.spec_access().0, (h0.spec_depth() + 1) as u64, cipher);
        &&& h1.spec_access() == h0.spec_access()
        &&& h1.spec_depth() == h0.spec_depth() + 1
        &&& h1.spec_forest().setup_view() == h0.spec_forest().setup_view()
        &&& h1.spec_forest().view_entries() == h0.spec_forest().view_entries().push(entry)
        &&& h1.spec_store_view() == h0.spec_store_view()
    }

    /// Seals the current tree into the forest as the next snapshot version
    /// and re-serializes the forest into the store, returning the new root
    /// content identifier — the caller must record it as the new head.
    fn commit(&mut self) -> (r: Result<ContentId, FsError>)
        requires
            old(self).wf(),
            old(self).spec_depth() < u64::MAX,
            old(self).spec_forest().view_entries().len() < u64::MAX,
        ensures
            final(self).wf(),
            final(self).spec_root_dir() == old(self).spec_root_dir(),
            match r {
                Ok(id) => Self::committed(*old(self), *final(self), id@),
                Err(e) => e == FsError::BackendError && Self::advanced_unpersisted(
                    *old(self),
                    *final(self),
                ),
            },
    {
        let bytes = self.root_dir.encode();
        let cipher = seal(self.access.key.as_slice(), bytes.as_slice());
        let clen = cipher.len();
        proof {
            assert(cipher@.len() == clen);
        }
        let label = clone_bytes(&self.access.label);
        self.depth = self.depth + 1;
        self.forest.put_encrypted(label, self.depth, cipher);
        match self.forest.serialize(&mut self.store) {
            Ok(id) => Ok(id),
            Err(e) => Err(e),
        }
    }

    /// Writes `content` at the path, stamping it with the given time when
    /// positive and with the clock otherwise, and commits; returns the new
    /// root identifier.
    pub fn write_file(
        &mut self,
        path_segments: &[String],
        content: Vec<u8>,
        modification_time_seconds: i64,
    ) -> (r: Result<ContentId, FsError>)
        requires
            old(self).wf(),
            old(self).spec_depth() < u64::MAX,
            old(self).spec_forest().view_entries().len() < u64::MAX,
        ensures
            final(self).wf(),
            match r {
                Ok(id) => Self::committed(*old(self), *final(self), id@) && (
                if modification_time_seconds > 0 {
                    exists|t: i64|
                        #[trigger] write_post(
                            old(self).spec_root_dir(),
                            final(self).spec_root_dir(),
                            path_of(path_segments@),
                            content@,
                            modification_time_seconds,
                            t,
                        )
                } else {
                    exists|t: i64|
                        #[trigger] write_post(
                            old(self).spec_root_dir(),
                            final(self).spec_root_dir(),
                            path_of(path_segments@),
                            content@,
                            t,
                            t,
                        )
                }),
                Err(e) => (*final(self) == *old(self) && ((e == FsError::InvalidInput
                    && path_segments@.len() == 0) || (e == FsError::AlreadyExists
                    && path_segments@.len() >= 1 && (ancestor_conflict(
                    old(self).spec_root_dir(),
                    path_of(path_segments@),
                ) || old(self).spec_root_dir().lookup(path_of(path_segments@)) matches Some(
                    NodeView::Dir { .. },
                ))))) || (e == FsError::BackendError && Self::advanced_unpersisted(
                    *old(self),
                    *final(self),
                ) && (if modification_time_seconds > 0 {
                    exists|t: i64|
                        #[trigger] write_post(
                            old(self).spec_root_dir(),
                            final(self).spec_root_dir(),
                            path_of(path_segments@),
                            content@,
                            modification_time_seconds,
                            t,
                        )
                } else {
                    exists|t: i64|
                        #[trigger] write_post(
                            old(self).spec_root_dir(),
                            final(self).spec_root_dir(),
                            path_of(path_segments@),
                            content@,
                            t,
                            t,
                        )
                })),
            },
    {
        let now = now_seconds();
        let m = if modification_time_seconds > 0 {
            modification_time_seconds
        } else {
            now
        };
        match self.root_dir.write(path_segments, content, m, now) {
            Ok(_) => {},
            Err(e) => {
                return Err(e);
            },
        }
        self.commit()
    }

    /// Reads the file at the path from the in-memory tree.
    pub fn read_file(&mut self, path_segments: &[String]) -> (r: Result<Vec<u8>, FsError>)
        requires
            old(self).wf(),
        ensures
            *final(self) == *old(self),
            match r {
                Ok(c) => file_content(old(self).spec_root_dir().lookup(path_of(path_segments@)))
                    == Some(c@),
                Err(e) => e == FsError::NotFound && file_content(
                    old(self).spec_root_dir().lookup(path_of(path_segments@)),
                ) is None,
            },
    {
        self.root_dir.read(path_segments)
    }

    /// Creates a directory (with missing ancestors) and commits.
    pub fn mkdir(&mut self, path_segments: &[String]) -> (r: Result<ContentId, FsError>)
        requires
            old(self).wf(),
            old(self).spec_depth() < u64::MAX,
            old(self).spec_forest().view_entries().len() < u64::MAX,
        ensures
            final(self).wf(),
            match r {
                Ok(id) => path_segments@.len() >= 1 && !ancestor_conflict(
                    old(self).spec_root_dir(),
                    path_of(path_segments@),
                ) && !(old(self).spec_root_dir().lookup(path_of(path_segments@)) matches Some(
                    NodeView::File { .. },
                )) && (exists|t: i64|
                    #[trigger] mkdir_post(
                        old(self).spec_root_dir(),
                        final(self).spec_root_dir(),
                        path_of(path_segments@),
                        t,
                    )) && Self::committed(*old(self), *final(self), id@),
                Err(e) => (*final(self) == *old(self) && ((e == FsError::InvalidInput
                    && path_segments@.len() == 0) || (e == FsError::AlreadyExists
                    && path_segments@.len() >= 1 && (ancestor_conflict(
                    old(self).spec_root_dir(),
                    path_of(path_segments@),
                ) || old(self).spec_root_dir().lookup(path_of(path_segments@)) matches Some(
                    NodeView::File { .. },
                ))))) || (e == FsError::BackendError && Self::advanced_unpersisted(
                    *old(self),
                    *final(self),
                ) && path_segments@.len() >= 1 && !ancestor_conflict(
                    old(self).spec_root_dir(),
                    path_of(path_segments@),
                ) && !(old(self).spec_root_dir().lookup(path_of(path_segments@)) matches Some(
                    NodeView::File { .. },
                )) && exists|t: i64|
                    #[trigger] mkdir_post(
                        old(self).spec_root_dir(),
                        final(self).spec_root_dir(),
                        path_of(path_segments@),
                        t,
                    )),
            },
    {
        let now = now_seconds();
        match self.root_dir.mkdir(path_segments, now) {
            Ok(_) => {},
            Err(e) => {
                return Err(e);
            },
        }
        self.commit()
    }

    /// Removes the node at the path with its subtree and commits; the
    /// orphaned ciphertexts stay in the append-only forest.
    pub fn rm(&mut self, path_segments: &[String]) -> (r: Result<ContentId, FsError>)
        requires
            old(self).wf(),
            old(self).spec_depth() < u64::MAX,
            old(self).spec_forest().view_entries().len() < u64::MAX,
        ensures
            final(self).wf(),
            match r {
                Ok(id) => rm_post(
                    old(self).spec_root_dir(),
                    final(self).spec_root_dir(),
                    path_of(path_segments@),
                ) && Self::committed(*old(self), *final(self), id@),
                Err(e) => (*final(self) == *old(self) && ((e == FsError::InvalidInput
                    && path_segments@.len() == 0) || (e == FsError::NotFound
                    && path_segments@.len() >= 1 && old(self).spec_root_dir().lookup(
                    path_of(path_segments@),
                ) is None))) || (e == FsError::BackendError && Self::advanced_unpersisted(
                    *old(self),
                    *final(self),
                ) && rm_post(
                    old(self).spec_root_dir(),
                    final(self).spec_root_dir(),
                    path_of(path_segments@),
                )),
            },
    {
        match self.root_dir.rm(path_segments) {
            Ok(_) => {},
            Err(e) => {
                return Err(e);
            },
        }
        self.commit()
    }

    /// Moves the subtree at the source path to the target path and commits.
    pub fn mv(&mut self, source_path_segments: &[String], target_path_segments: &[String]) -> (r:
        Result<ContentId, FsError>)
        requires
            old(self).wf(),
            old(self).spec_depth() < u64::MAX,
            old(self).spec_forest().view_entries().len() < u64::MAX,
        ensures
            final(self).wf(),
            match r {
                Ok(id) => relocation_accepted(
                    old(self).spec_root_dir(),
                    path_of(source_path_segments@),
                    path_of(target_path_segments@),
                ) && (exists|t: i64|
                    #[trigger] mv_post(
                        old(self).spec_root_dir(),
                        final(self).spec_root_dir(),
                        path_of(source_path_segments@),
                        path_of(target_path_segments@),
                        t,
                    )) && Self::committed(*old(self), *final(self), id@),
                Err(e) => (*final(self) == *old(self) && relocation_rejected(
                    old(self).spec_root_dir(),
                    path_of(source_path_segments@),
                    path_of(target_path_segments@),
                    e,
                )) || (e == FsError::BackendError && Self::advanced_unpersisted(
                    *old(self),
                    *final(self),
                ) && relocation_accepted(
                    old(self).spec_root_dir(),
                    path_of(source_path_segments@),
                    path_of(target_path_segments@),
                ) && exists|t: i64|
                    #[trigger] mv_post(
                        old(self).spec_root_dir(),
                        final(self).spec_root_dir(),
                        path_of(source_path_segments@),
                        path_of(target_path_segments@),
                        t,
                    )),
            },
    {
        let now = now_seconds();
        match self.root_dir.mv(source_path_segments, target_path_segments, now) {
            Ok(_) => {},
            Err(e) => {
                return Err(e);
            },
        }
        self.commit()
    }

    /// Copies the subtree at the source path to an independent clone at the
    /// target path and commits.
    pub fn cp(&mut self, source_path_segments: &[String], target_path_segments: &[String]) -> (r:
        Result<ContentId, FsError>)
        requires
            old(self).wf(),
            old(self).spec_depth() < u64::MAX,
            old(self).spec_forest().view_entries().len() < u64::MAX,
        ensures
            final(self).wf(),
            match r {
                Ok(id) => relocation_accepted(
                    old(self).spec_root_dir(),
                    path_of(source_path_segments@),
                    path_of(target_path_segments@),
                ) && (exists|t: i64|
                    #[trigger] cp_post(
                        old(self).spec_root_dir(),
                        final(self).spec_root_dir(),
                        path_of(source_path_segments@),
                        path_of(target_path_segments@),
                        t,
                    )) && Self::committed(*old(self), *final(self), id@),
                Err(e) => (*final(self) == *old(self) && relocation_rejected(
                    old(self).spec_root_dir(),
                    path_of(source_path_segments@),
                    path_of(target_path_segments@),
                    e,
                )) || (e == FsError::BackendError && Self::advanced_unpersisted(
                    *old(self),
                    *final(self),
                ) && relocation_accepted(
                    old(self).spec_root_dir(),
                    path_of(source_path_segments@),
                    path_of(target_path_segments@),
                ) && exists|t: i64|
                    #[trigger] cp_post(
                        old(self).spec_root_dir(),
                        final(self).spec_root_dir(),
                        path_of(source_path_segments@),
                        path_of(target_path_segments@),
                        t,
                    )),
            },
    {
        let now = now_seconds();
        match self.root_dir.cp(source_path_segments, target_path_segments, now) {
            Ok(_) => {},
            Err(e) => {
                return Err(e);
            },
        }
        self.commit()
    }

    /// Lists the immediate children of the directory at the path.
    pub fn ls_files(&mut self, path_segments: &[String]) -> (r: Result<
        Vec<(String, Metadata)>,
        FsError,
    >)
        requires
            old(self).wf(),
        ensures
            *final(self) == *old(self),
            match r {
                Ok(v) => (path_segments@.len() == 0 || old(self).spec_root_dir().lookup(
                    path_of(path_segments@),
                ) matches Some(NodeView::Dir { .. })) && (forall|k: int|
                    0 <= k < v@.len() ==> {
                        let o = old(self).spec_root_dir().lookup(
                            path_of(path_segments@).push(#[trigger] v@[k].0@),
                        );
                        o is Some && crate::directory::meta_matches(v@[k].1, o->Some_0)
                    }) && (forall|name: Seq<char>|
                    old(self).spec_root_dir().lookup(path_of(path_segments@).push(name)) is Some
                        ==> exists|k: int| 0 <= k < v@.len() && (#[trigger] v@[k].0@) == name) && (
                forall|k1: int, k2: int|
                    0 <= k1 < k2 < v@.len() ==> (#[trigger] v@[k1].0@) != (#[trigger] v@[k2].0@)),
                Err(e) => e == FsError::NotFound && path_segments@.len() >= 1 && !(old(
                    self,
                ).spec_root_dir().lookup(path_of(path_segments@)) matches Some(
                    NodeView::Dir { .. },
                )),
            },
    {
        self.root_dir.ls(path_segments)
    }

    /// Creates a fresh forest around a random accumulator setup and persists
    /// its (empty) serialized form, returning the forest and its identifier.
    pub fn create_private_forest(store: &mut FFIFriendlyBlockStore<S>) -> (r: Result<
        (Forest, ContentId),
        FsError,
    >)
        ensures
            match r {
                Ok((f, id)) => f.wf() && f.view_entries() == Seq::<EntryView>::empty()
                    && id@ == content_id_of(
                    enc_forest(f.setup_view(), f.view_entries()),
                    FOREST_CODEC,
                ) && dec_forest_spec(enc_forest(f.setup_view(), f.view_entries())) == Some(
                    (f.setup_view(), f.view_entries()),
                ) && final(store).ffi_store.store_view() == old(store).ffi_store.store_view().insert(
                    id@,
                    enc_forest(f.setup_view(), f.view_entries()),
                ),
                Err(e) => e == FsError::BackendError && final(store).ffi_store.store_view() == old(
                    store,
                ).ffi_store.store_view(),
            },
    {
        let setup = random_bytes32();
        let forest = Forest::create(setup);
        let id = forest.serialize(store)?;
        proof {
            crate::forest::lemma_dec_forest_round_trip(
                forest.setup_view(),
                forest.view_entries(),
            );
        }
        Ok((forest, id))
    }

    /// Rebuilds a forest from the block stored under `forest_cid`.
    pub fn load_private_forest(store: &FFIFriendlyBlockStore<S>, forest_cid: &ContentId) -> (r:
        Result<Forest, FsError>)
        ensures
            match r {
                Ok(f) => store.ffi_store.store_view().contains_key(forest_cid@)
                    && dec_forest_spec(store.ffi_store.store_view()[forest_cid@]) == Some(
                    (f.setup_view(), f.view_entries()),
                ) && f.wf(),
                Err(e) => (e == FsError::NotFound && !store.ffi_store.store_view().contains_key(
                    forest_cid@,
                )) || (e == FsError::DecryptionError
                    && store.ffi_store.store_view().contains_key(forest_cid@) && dec_forest_spec(
                    store.ffi_store.store_view()[forest_cid@],
                ) is None),
            },
    {
        Forest::deserialize(store, forest_cid)
    }

    /// Serializes the forest into the store and returns the new root
    /// identifier.
    pub fn update_private_forest(store: &mut FFIFriendlyBlockStore<S>, forest: &Forest) -> (r:
        Result<ContentId, FsError>)
        requires
            forest.wf(),
        ensures
            match r {
                Ok(id) => id@ == content_id_of(
                    enc_forest(forest.setup_view(), forest.view_entries()),
                    FOREST_CODEC,
                ) && dec_forest_spec(enc_forest(forest.setup_view(), forest.view_entries()))
                    == Some((forest.setup_view(), forest.view_entries()))
                    && final(store).ffi_store.store_view()
                    == old(store).ffi_store.store_view().insert(
                    id@,
                    enc_forest(forest.setup_view(), forest.view_entries()),
                ),
                Err(e) => e == FsError::BackendError && final(store).ffi_store.store_view() == old(
                    store,
                ).ffi_store.store_view(),
            },
    {
        let r = forest.serialize(store);
        proof {
            crate::forest::lemma_dec_forest_round_trip(
                forest.setup_view(),
                forest.view_entries(),
            );
        }
        r
    }

    /// Derives the exchange keypair from the seed, publishes its public key
    /// as a block, probes for the next free share slot and stores the access
    /// key there, encrypted for the derived public key: the owner shares the
    /// root with itself, so that the seed alone recovers it later.
    pub fn setup_seeded_keypair_access(
        forest: &mut Forest,
        access_key: &AccessKey,
        store: &mut FFIFriendlyBlockStore<S>,
        seed: &[u8],
    ) -> (r: Result<(), FsError>)
        requires
            seed@.len() == 32,
            old(forest).wf(),
            old(forest).view_entries().len() < u64::MAX,
        ensures
            final(forest).wf(),
            final(forest).setup_view() == old(forest).setup_view(),
            match r {
                Ok(_) => ({
                    let did = encode_utf8(hex_of(seed@));
                    let m = rsa_modulus_of(seed@);
                    let cnt = next_share_counter(
                        old(forest).view_entries(),
                        old(forest).setup_view(),
                        did,
                        m,
                    );
                    &&& rsa_keygen_ok(seed@)
                    &&& (exists|c: Seq<u8>|
                        final(forest).view_entries() == #[trigger] old(
                            forest,
                        ).view_entries().push(
                            (share_name_of(old(forest).setup_view(), cnt, did, m), 0u64, c),
                        ) && (forall|s: Seq<u8>|
                            rsa_modulus_of(s) == m ==> crate::exchange::oaep_decrypt_of(s, c)
                                == Some(enc_access_key(access_key@))))
                    &&& final(store).ffi_store.store_view() == old(
                        store,
                    ).ffi_store.store_view().insert(content_id_of(m, RAW_CODEC), m)
                }),
                Err(e) => *final(forest) == *old(forest) && (e == FsError::InvalidInput || e
                    == FsError::BackendError || e == FsError::DecryptionError)
                    && (final(store).ffi_store.store_view() == old(store).ffi_store.store_view()
                    || final(store).ffi_store.store_view()
                    == old(store).ffi_store.store_view().insert(
                    content_id_of(rsa_modulus_of(seed@), RAW_CODEC),
                    rsa_modulus_of(seed@),
                )) && (e == FsError::BackendError ==> final(store).ffi_store.store_view() == old(
                    store,
                ).ffi_store.store_view()),
            },
    {
        let keypair = SeededExchangeKey::from_seed(seed)?;
        let _public_key_cid = keypair.store_public_key(store)?;
        let root_did = bytes_to_hex(seed);
        let modulus = keypair.encode_public_key();
        let recipient = PublicExchangeKey::from_modulus(modulus.as_slice())?;
        let counter: u64 = match find_latest_share_counter(
            0,
            SHARE_PROBE_LIMIT,
            modulus.as_slice(),
            root_did.as_str(),
            forest,
        ) {
            Some(c) => c + 1,
            None => 0,
        };
        proof {
            assert(counter == next_share_counter(
                forest.view_entries(),
                forest.setup_view(),
                encode_utf8(hex_of(seed@)),
                rsa_modulus_of(seed@),
            ));
        }
        share(access_key, counter, root_did.as_str(), &recipient, forest)?;
        Ok(())
    }

    /// Builds a brand-new filesystem from a 32-byte seed: a fresh forest and
    /// empty root directory, the root access key shared with the seed's own
    /// exchange keypair, and the first snapshot committed. Returns the
    /// session, the access key and the root identifier to persist.
    pub fn init(store: FFIFriendlyBlockStore<S>, wnfs_key: Vec<u8>, state: &mut SessionState) -> (r:
        Result<(PrivateDirectoryHelper<S>, AccessKey, ContentId), FsError>)
        ensures
            match r {
                Ok((h, ak, cid)) => {
                    &&& wnfs_key@.len() == 32
                    &&& rsa_keygen_ok(wnfs_key@)
                    &&& h.wf()
                    &&& ak@ == h.spec_access()
                    &&& h.spec_depth() == 1
                    &&& (forall|q: Seq<Seq<char>>| #[trigger] h.spec_root_dir().lookup(q) is None)
                    &&& receive_spec(
                        h.spec_forest().view_entries(),
                        share_name_of(
                            h.spec_forest().setup_view(),
                            0u64,
                            encode_utf8(hex_of(wnfs_key@)),
                            rsa_modulus_of(wnfs_key@),
                        ),
                        wnfs_key@,
                    ) == Some(ak@)
                    &&& latest_of(h.spec_forest().view_entries(), h.spec_access().0) == Some(
                        (
                            h.spec_access().0,
                            1u64,
                            seal_spec(h.spec_access().1, enc_fs(h.spec_root_dir().fs_view())),
                        ),
                    )
                    &&& open_spec(
                        h.spec_access().1,
                        seal_spec(h.spec_access().1, enc_fs(h.spec_root_dir().fs_view())),
                    ) == Some(enc_fs(h.spec_root_dir().fs_view()))
                    &&& h.spec_store_view().contains_key(cid@)
                    &&& h.spec_store_view()[cid@] == enc_forest(
                        h.spec_forest().setup_view(),
                        h.spec_forest().view_entries(),
                    )
                    &&& h.spec_store_view() == store.ffi_store.store_view().insert(
                        content_id_of(rsa_modulus_of(wnfs_key@), RAW_CODEC),
                        rsa_modulus_of(wnfs_key@),
                    ).insert(
                        cid@,
                        enc_forest(h.spec_forest().setup_view(), h.spec_forest().view_entries()),
                    )
                    &&& final(state).initialized && final(state).wnfs_key@ == wnfs_key@
                },
                Err(e) => (wnfs_key@.len() != 32 ==> e == FsError::InvalidInput) && (e
                    == FsError::InvalidInput || e == FsError::DecryptionError || e
                    == FsError::BackendError) && *final(state) == *old(state),
            },
    {
        if wnfs_key.len() != 32 {
            return Err(FsError::InvalidInput);
        }
        let setup = random_bytes32();
        let forest = Forest::create(setup);
        let root_dir = PrivateDirectory::new();
        let mut label: Vec<u8> = Vec::new();
        label.push(0u8);
        crate::codec::append_bytes(&mut label, random_bytes32().as_slice());
        let key = random_bytes32();
        let access = AccessKey { label, key };
        let mut h = PrivateDirectoryHelper { store, forest, root_dir, access, depth: 0 };
        let ghost setup_v = h.spec_forest().setup_view();
        proof {
            assert(h.spec_access().0.len() == 33 && h.spec_access().0[0] == 0u8);
            assert(h.wf());
        }
        match Self::setup_seeded_keypair_access(
            &mut h.forest,
            &h.access,
            &mut h.store,
            wnfs_key.as_slice(),
        ) {
            Ok(_) => {},
            Err(e) => {
                return Err(e);
            },
        }
        let ghost f1 = h.spec_forest().view_entries();
        let ghost share_name = share_name_of(
            setup_v,
            0u64,
            encode_utf8(hex_of(wnfs_key@)),
            rsa_modulus_of(wnfs_key@),
        );
        proof {
            // the forest was empty, so the share landed in slot zero
            assert(latest_of(
                Seq::<EntryView>::empty(),
                share_name_of(setup_v, 0u64, encode_utf8(hex_of(wnfs_key@)), rsa_modulus_of(
                    wnfs_key@,
                )),
            ) is None);
            assert(next_share_counter(
                Seq::<EntryView>::empty(),
                setup_v,
                encode_utf8(hex_of(wnfs_key@)),
                rsa_modulus_of(wnfs_key@),
            ) == 0);
        }
        let cid = match h.commit() {
            Ok(id) => id,
            Err(e) => {
                return Err(e);
            },
        };
        proof {
            // the snapshot label and the share-slot name differ in their tag
            // byte, so each resolves independently of the other
            let c = choose|c: Seq<u8>|
                f1 == Seq::<crate::forest::EntryView>::empty().push((share_name, 0u64, c)) && (
                forall|s: Seq<u8>|
                    rsa_modulus_of(s) == rsa_modulus_of(wnfs_key@)
                        ==> crate::exchange::oaep_decrypt_of(s, c) == Some(
                        enc_access_key(h.spec_access()),
                    ));
            assert(share_name[0] == 1u8 && h.spec_access().0[0] == 0u8);
            assert(share_name != h.spec_access().0);
            let snap = (
                h.spec_access().0,
                1u64,
                seal_spec(h.spec_access().1, enc_fs(h.spec_root_dir().fs_view())),
            );
            crate::forest::lemma_latest_after_append(f1, snap, share_name);
            crate::forest::lemma_latest_after_append(
                Seq::<crate::forest::EntryView>::empty(),
                (share_name, 0u64, c),
                share_name,
            );
            crate::forest::lemma_latest_after_append(f1, snap, h.spec_access().0);
            crate::forest::lemma_latest_after_append(
                Seq::<crate::forest::EntryView>::empty(),
                (share_name, 0u64, c),
                h.spec_access().0,
            );
            assert(latest_of(h.spec_forest().view_entries(), share_name) == Some(
                (share_name, 0u64, c),
            ));
            crate::sharing::lemma_dec_access_key_round_trip(h.spec_access());
            assert(receive_spec(h.spec_forest().view_entries(), share_name, wnfs_key@) == Some(
                h.spec_access(),
            ));
        }
        let ak = h.duplicate_access();
        state.update(true, wnfs_key);
        Ok((h, ak, cid))
    }

    /// Everything an access key opens: the forest decoded from the head
    /// block stored under `forest_cid`, and the root directory opened from
    /// the latest sealed snapshot under the key's label.
    pub open spec fn opened_session(
        h: Self,
        sv: Map<Seq<u8>, Seq<u8>>,
        forest_cid: Seq<u8>,
        access: (Seq<u8>, Seq<u8>),
    ) -> bool {
        let setup = h.spec_forest().setup_view();
        let entries = h.spec_forest().view_entries();
        &&& h.wf()
        &&& h.spec_access() == access
        &&& h.spec_store_view() == sv
        &&& sv.contains_key(forest_cid)
        &&& dec_forest_spec(sv[forest_cid]) == Some((setup, entries))
        &&& ({
            let e = latest_of(entries, access.0);
            &&& e matches Some(en)
            &&& en.0 == access.0
            &&& en.1 == h.spec_depth()
            &&& open_spec(access.1, en.2) matches Some(plain)
            &&& dec_fs_spec(open_spec(access.1, en.2)->Some_0) == Some(
                h.spec_root_dir().fs_view(),
            )
        })
    }

    /// Exactly when and why opening with an access key fails:
    /// `DecryptionError` for a malformed key or anything present that does
    /// not decode, decrypt or authenticate, `NotFound` when the head block
    /// or the sealed snapshot is absent.
    pub open spec fn open_failure(
        e: FsError,
        sv: Map<Seq<u8>, Seq<u8>>,
        forest_cid: Seq<u8>,
        access: (Seq<u8>, Seq<u8>),
    ) -> bool {
        if access.0.len() != 33 || access.0[0] != 0u8 || access.1.len() != 32 {
            e == FsError::DecryptionError
        } else if !sv.contains_key(forest_cid) {
            e == FsError::NotFound
        } else {
            match dec_forest_spec(sv[forest_cid]) {
                None => e == FsError::DecryptionError,
                Some((setup, entries)) => match latest_of(entries, access.0) {
                    None => e == FsError::NotFound,
                    Some(en) => match open_spec(access.1, en.2) {
                        None => e == FsError::DecryptionError,
                        Some(plain) => e == FsError::DecryptionError && (match dec_fs_spec(
                            plain,
                        ) {
                            None => true,
                            Some(dv) => forall|g: PrivateDirectory|
                                #[trigger] g.fs_view() == dv ==> !g.wf(),
                        }),
                    },
                },
            }
        }
    }

    /// Opens a session with an access key in hand — the recipient side of
    /// the sharing protocol, where `receive_share` already recovered the
    /// key: rebuilds the forest from the head block and opens the latest
    /// sealed snapshot under the key's label.
    pub fn load_with_access_key(
        store: FFIFriendlyBlockStore<S>,
        forest_cid: &ContentId,
        access: AccessKey,
    ) -> (r: Result<PrivateDirectoryHelper<S>, FsError>)
        ensures
            match r {
                Ok(h) => Self::opened_session(
                    h,
                    store.ffi_store.store_view(),
                    forest_cid@,
                    access@,
                ),
                Err(e) => Self::open_failure(
                    e,
                    store.ffi_store.store_view(),
                    forest_cid@,
                    access@,
                ),
            },
    {
        if access.label.len() != 33 || access.key.len() != 32 {
            return Err(FsError::DecryptionError);
        }
        if access.label[0] != 0u8 {
            return Err(FsError::DecryptionError);
        }
        let forest = match Forest::deserialize(&store, forest_cid) {
            Ok(f) => f,
            Err(FsError::NotFound) => {
                return Err(FsError::NotFound);
            },
            Err(_) => {
                return Err(FsError::DecryptionError);
            },
        };
        let (depth, cipher) = match forest.get_latest(access.label.as_slice()) {
            Ok(x) => x,
            Err(_) => {
                return Err(FsError::NotFound);
            },
        };
        let plain = open(access.key.as_slice(), &cipher)?;
        let root_dir = PrivateDirectory::decode(&plain)?;
        Ok(PrivateDirectoryHelper { store, forest, root_dir, access, depth })
    }

    /// Everything a successful seed-based load pins down: the session's
    /// access key recovered from the owner's own share slot at the probed
    /// counter, and the session opened with it.
    pub open spec fn loaded_session(
        h: Self,
        sv: Map<Seq<u8>, Seq<u8>>,
        forest_cid: Seq<u8>,
        seed: Seq<u8>,
    ) -> bool {
        let setup = h.spec_forest().setup_view();
        let entries = h.spec_forest().view_entries();
        let did = encode_utf8(hex_of(seed));
        let m = rsa_modulus_of(seed);
        &&& seed.len() == 32
        &&& rsa_keygen_ok(seed)
        &&& receive_spec(
            entries,
            share_name_of(setup, probe_counter(entries, setup, did, m), did, m),
            seed,
        ) == Some(h.spec_access())
        &&& Self::opened_session(h, sv, forest_cid, h.spec_access())
    }

    /// Exactly when and why a seed-based load fails, as a condition on the
    /// store contents and the seed: `InvalidInput` for a seed of the wrong
    /// length or one whose keypair derivation fails, `NotFound` when the
    /// head block, the owner's share slot or the sealed snapshot is absent,
    /// and `DecryptionError` when something present does not decode, decrypt
    /// or authenticate under the seed's key material.
    pub open spec fn load_failure(
        e: FsError,
        sv: Map<Seq<u8>, Seq<u8>>,
        forest_cid: Seq<u8>,
        seed: Seq<u8>,
    ) -> bool {
        let did = encode_utf8(hex_of(seed));
        let m = rsa_modulus_of(seed);
        if seed.len() != 32 {
            e == FsError::InvalidInput
        } else if !sv.contains_key(forest_cid) {
            e == FsError::NotFound
        } else {
            match dec_forest_spec(sv[forest_cid]) {
                None => e == FsError::DecryptionError,
                Some((setup, entries)) => if !rsa_keygen_ok(seed) {
                    e == FsError::InvalidInput
                } else {
                    let name = share_name_of(
                        setup,
                        probe_counter(entries, setup, did, m),
                        did,
                        m,
                    );
                    if latest_of(entries, name) is None {
                        e == FsError::NotFound
                    } else {
                        match receive_spec(entries, name, seed) {
                            None => e == FsError::DecryptionError,
                            Some(ak) => Self::open_failure(e, sv, forest_cid, ak),
                        }
                    }
                },
            }
        }
    }

    /// Reconstructs a session from a persisted forest root identifier and
    /// the 32-byte seed: derives the exchange keypair, discovers the owner's
    /// own share slot, decrypts the access key and opens the latest sealed
    /// snapshot. A wrong seed fails — it never yields another root's data.
    pub fn load_with_wnfs_key(
        store: FFIFriendlyBlockStore<S>,
        forest_cid: &ContentId,
        wnfs_key: Vec<u8>,
        state: &mut SessionState,
    ) -> (r: Result<PrivateDirectoryHelper<S>, FsError>)
        ensures
            match r {
                Ok(h) => Self::loaded_session(
                    h,
                    store.ffi_store.store_view(),
                    forest_cid@,
                    wnfs_key@,
                ) && final(state).initialized && final(state).wnfs_key@ == wnfs_key@,
                Err(e) => Self::load_failure(
                    e,
                    store.ffi_store.store_view(),
                    forest_cid@,
                    wnfs_key@,
                ) && *final(state) == *old(state),
            },
    {
        if wnfs_key.len() != 32 {
            return Err(FsError::InvalidInput);
        }
        let forest = match Forest::deserialize(&store, forest_cid) {
            Ok(f) => f,
            Err(FsError::NotFound) => {
                return Err(FsError::NotFound);
            },
            Err(_) => {
                return Err(FsError::DecryptionError);
            },
        };
        let keypair = SeededExchangeKey::from_seed(wnfs_key.as_slice())?;
        let root_did = bytes_to_hex(wnfs_key.as_slice());
        let modulus = keypair.encode_public_key();
        let counter: u64 = match find_latest_share_counter(
            0,
            SHARE_PROBE_LIMIT,
            modulus.as_slice(),
            root_did.as_str(),
            &forest,
        ) {
            Some(c) => c,
            None => 0,
        };
        proof {
            assert(counter == probe_counter(
                forest.view_entries(),
                forest.setup_view(),
                encode_utf8(hex_of(wnfs_key@)),
                rsa_modulus_of(wnfs_key@),
            ));
        }
        let name = create_share_name(counter, root_did.as_str(), modulus.as_slice(), &forest);
        let access = match receive_share(name.as_slice(), &keypair, &forest) {
            Ok(ak) => ak,
            Err(FsError::NotFound) => {
                return Err(FsError::NotFound);
            },
            Err(_) => {
                return Err(FsError::DecryptionError);
            },
        };
        let h = match Self::load_with_access_key(store, forest_cid, access) {
            Ok(h) => h,
            Err(e) => {
                return Err(e);
            },
        };
        state.update(true, wnfs_key);
        Ok(h)
    }

    /// Reconstructs a session from a persisted root identifier and the seed
    /// cached in the session record, returning exactly what loading with
    /// that seed returns; fails with `NotInitialized` when no session was
    /// ever recorded.
    pub fn reload(
        store: FFIFriendlyBlockStore<S>,
        forest_cid: &ContentId,
        state: &mut SessionState,
    ) -> (r: Result<PrivateDirectoryHelper<S>, FsError>)
        ensures
            match r {
                Ok(h) => old(state).initialized && Self::loaded_session(
                    h,
                    store.ffi_store.store_view(),
                    forest_cid@,
                    old(state).wnfs_key@,
                ) && final(state).initialized && final(state).wnfs_key@ == old(state).wnfs_key@,
                Err(e) => *final(state) == *old(state) && (if !old(state).initialized {
                    e == FsError::NotInitialized
                } else {
                    Self::load_failure(
                        e,
                        store.ffi_store.store_view(),
                        forest_cid@,
                        old(state).wnfs_key@,
                    )
                }),
            },
    {
        if !state.initialized {
            return Err(FsError::NotInitialized);
        }
        let key = clone_bytes(&state.wnfs_key);
        Self::load_with_wnfs_key(store, forest_cid, key, state)
    }

    /// Splits a slash-delimited path into its segments, first dropping
    /// whitespace and then slashes from both ends, as `parse_path("/a/b/")`
    /// giving the two segments `a` and `b`. Splitting alone never fails: the
    /// empty remainder yields one empty segment. The segments are slash-free
    /// and rejoin to the trimmed input, which pins them down: a string has
    /// only one decomposition into slash-free segments joined by slashes.
    pub fn parse_path(path: String) -> (r: Vec<String>)
        ensures
            r@.len() >= 1,
            forall|k: int|
                0 <= k < r@.len() ==> !(#[trigger] r@[k]@).contains('/'),
            joined_path(seg_views(r@)) == trimmed_path(path@),
    {
        let s = path.as_str();
        let n = s.unicode_len();
        let mut a: usize = 0;
        while a < n && is_ws(s.get_char(a))
            invariant
                a <= n,
                n == s@.len(),
                forall|j: int| 0 <= j < a ==> path_ws(s@[j]),
            decreases n - a,
        {
            a = a + 1;
        }
        let ghost a1 = a as int;
        let mut b: usize = n;
        while b > a && is_ws(s.get_char(b - 1))
            invariant
                a <= b <= n,
                n == s@.len(),
                forall|j: int| b <= j < n ==> path_ws(s@[j]),
            decreases b,
        {
            b = b - 1;
        }
        let ghost b1 = b as int;
        while a < b && s.get_char(a) == '/'
            invariant
                a1 <= a <= b <= n,
                b == b1,
                n == s@.len(),
                forall|j: int| a1 <= j < a ==> s@[j] == '/',
            decreases b - a,
        {
            a = a + 1;
        }
        let ghost a2 = a as int;
        while b > a && s.get_char(b - 1) == '/'
            invariant
                a2 <= b <= b1 <= n,
                a == a2,
                n == s@.len(),
                forall|j: int| b <= j < b1 ==> s@[j] == '/',
            decreases b,
        {
            b = b - 1;
        }
        let ghost b2 = b as int;
        proof {
            // the four loops realize the four trims, outermost first
            lemma_trim_leading_ws_range(s@, a1);
            let t1 = s@.subrange(a1, n as int);
            assert forall|j: int| b1 - a1 <= j < t1.len() implies path_ws(t1[j]) by {
                assert(t1[j] == s@[a1 + j]);
            }
            lemma_trim_trailing_ws_range(t1, b1 - a1);
            let t2 = s@.subrange(a1, b1);
            assert(t1.subrange(0, b1 - a1) =~= t2);
            assert forall|j: int| 0 <= j < a2 - a1 implies t2[j] == '/' by {
                assert(t2[j] == s@[a1 + j]);
            }
            lemma_trim_leading_slash_range(t2, a2 - a1);
            let t3 = s@.subrange(a2, b1);
            assert(t2.subrange(a2 - a1, t2.len() as int) =~= t3);
            assert forall|j: int| b2 - a2 <= j < t3.len() implies t3[j] == '/' by {
                assert(t3[j] == s@[a2 + j]);
            }
            lemma_trim_trailing_slash_range(t3, b2 - a2);
            assert(t3.subrange(0, b2 - a2) =~= s@.subrange(a2, b2));
            assert(trimmed_path(path@) == s@.subrange(a2, b2));
        }
        let mut out: Vec<String> = Vec::new();
        let mut start: usize = a;
        let mut i: usize = a;
        while i < b
            invariant
                a <= start <= i <= b <= n,
                a == a2,
                b == b2,
                n == s@.len(),
                forall|k: int| 0 <= k < out@.len() ==> !(#[trigger] out@[k]@).contains('/'),
                forall|j: int| start <= j < i ==> s@[j] != '/',
                (out@.len() == 0 && start == a) || (out@.len() >= 1 && joined_path(seg_views(out@))
                    + seq!['/'] == s@.subrange(a as int, start as int)),
            decreases b - i,
        {
            if s.get_char(i) == '/' {
                let seg = s.substring_char(start, i).to_owned();
                proof {
                    assert(seg@ == s@.subrange(start as int, i as int));
                    assert(!seg@.contains('/')) by {
                        if seg@.contains('/') {
                            let w = choose|w: int| 0 <= w < seg@.len() && seg@[w] == '/';
                            assert(s@[start + w] == '/');
                        }
                    }
                }
                let ghost out0 = out@;
                out.push(seg);
                proof {
                    assert(seg_views(out@) =~= seg_views(out0).push(seg@));
                    if out0.len() == 0 {
                        assert(joined_path(seg_views(out@)) == seg@);
                        assert(joined_path(seg_views(out@)) + seq!['/'] =~= s@.subrange(
                            a as int,
                            i as int + 1,
                        ));
                    } else {
                        assert(seg_views(out@).drop_last() =~= seg_views(out0));
                        assert(seg_views(out@).last() == seg@);
                        assert(joined_path(seg_views(out@)) == joined_path(seg_views(out0))
                            + seq!['/'] + seg@);
                        assert(joined_path(seg_views(out@)) + seq!['/'] =~= s@.subrange(
                            a as int,
                            i as int + 1,
                        ));
                    }
                }
                start = i + 1;
            }
            i = i + 1;
        }
        let seg = s.substring_char(start, b).to_owned();
        proof {
            assert(seg@ == s@.subrange(start as int, b as int));
            assert(!seg@.contains('/')) by {
                if seg@.contains('/') {
                    let w = choose|w: int| 0 <= w < seg@.len() && seg@[w] == '/';
                    assert(s@[start + w] == '/');
                }
            }
        }
        let ghost out0 = out@;
        out.push(seg);
        proof {
            assert(seg_views(out@) =~= seg_views(out0).push(seg@));
            if out0.len() == 0 {
                assert(joined_path(seg_views(out@)) == seg@);
                assert(joined_path(seg_views(out@)) =~= s@.subrange(a as int, b as int));
            } else {
                assert(seg_views(out@).drop_last() =~= seg_views(out0));
                assert(seg_views(out@).last() == seg@);
                assert(joined_path(seg_views(out@)) == joined_path(seg_views(out0)) + seq!['/']
                    + seg@);
                assert(joined_path(seg_views(out@)) =~= s@.subrange(a as int, b as int));
            }
            assert(joined_path(seg_views(out@)) == trimmed_path(path@));
        }
        out
    }
}

/// Whether a character is ASCII whitespace, the kind trimmed from path ends.
pub open spec fn path_ws(c: char) -> bool {
    c == ' ' || c == '\t' || c == '\n' || c == '\r'
}

/// Tests a character for the whitespace the path parser trims.
fn is_ws(c: char) -> (r: bool)
    ensures
        r == path_ws(c),
{
    c == ' ' || c == '\t' || c == '\n' || c == '\r'
}

/// `s` without its longest whitespace prefix.
pub open spec fn trim_leading_ws(s: Seq<char>) -> Seq<char>
    decreases s.len(),
{
    if s.len() > 0 && path_ws(s[0]) {
        trim_leading_ws(s.drop_first())
    } else {
        s
    }
}

/// `s` without its longest whitespace suffix.
pub open spec fn trim_trailing_ws(s: Seq<char>) -> Seq<char>
    decreases s.len(),
{
    if s.len() > 0 && path_ws(s.last()) {
        trim_trailing_ws(s.drop_last())
    } else {
        s
    }
}

/// `s` without its longest prefix of slashes.
pub open spec fn trim_leading_slash(s: Seq<char>) -> Seq<char>
    decreases s.len(),
{
    if s.len() > 0 && s[0] == '/' {
        trim_leading_slash(s.drop_first())
    } else {
        s
    }
}

/// `s` without its longest suffix of slashes.
pub open spec fn trim_trailing_slash(s: Seq<char>) -> Seq<char>
    decreases s.len(),
{
    if s.len() > 0 && s.last() == '/' {
        trim_trailing_slash(s.drop_last())
    } else {
        s
    }
}

/// What the path parser splits: the input with whitespace trimmed from both
/// ends, then slashes trimmed from both ends.
pub open spec fn trimmed_path(s: Seq<char>) -> Seq<char> {
    trim_trailing_slash(trim_leading_slash(trim_trailing_ws(trim_leading_ws(s))))
}

/// The views of a list of segments.
pub open spec fn seg_views(v: Seq<String>) -> Seq<Seq<char>> {
    Seq::new(v.len(), |i: int| v[i]@)
}

/// Path segments rejoined with a slash between each adjacent pair.
pub open spec fn joined_path(segs: Seq<Seq<char>>) -> Seq<char>
    decreases segs.len(),
{
    if segs.len() == 0 {
        Seq::empty()
    } else if segs.len() == 1 {
        segs[0]
    } else {
        joined_path(segs.drop_last()) + seq!['/'] + segs.last()
    }
}

/// When everything before index `a` is whitespace and `a` is not, the
/// leading trim cuts exactly at `a`.
proof fn lemma_trim_leading_ws_range(s: Seq<char>, a: int)
    requires
        0 <= a <= s.len(),
        forall|j: int| 0 <= j < a ==> path_ws(s[j]),
        a == s.len() || !path_ws(s[a]),
    ensures
        trim_leading_ws(s) == s.subrange(a, s.len() as int),
    decreases a,
{
    if a == 0 {
        assert(s.subrange(0, s.len() as int) =~= s);
    } else {
        let t = s.drop_first();
        lemma_trim_leading_ws_range(t, a - 1);
        assert(t.subrange(a - 1, t.len() as int) =~= s.subrange(a, s.len() as int));
    }
}

/// When everything from index `b` on is whitespace and `b - 1` is not, the
/// trailing trim cuts exactly at `b`.
proof fn lemma_trim_trailing_ws_range(s: Seq<char>, b: int)
    requires
        0 <= b <= s.len(),
        forall|j: int| b <= j < s.len() ==> path_ws(s[j]),
        b == 0 || !path_ws(s[b - 1]),
    ensures
        trim_trailing_ws(s) == s.subrange(0, b),
    decreases s.len() - b,
{
    if b == s.len() {
        assert(s.subrange(0, b) =~= s);
    } else {
        let t = s.drop_last();
        lemma_trim_trailing_ws_range(t, b);
        assert(t.subrange(0, b) =~= s.subrange(0, b));
    }
}

/// When everything before index `a` is a slash and `a` is not, the leading
/// trim cuts exactly at `a`.
proof fn lemma_trim_leading_slash_range(s: Seq<char>, a: int)
    requires
        0 <= a <= s.len(),
        forall|j: int| 0 <= j < a ==> s[j] == '/',
        a == s.len() || s[a] != '/',
    ensures
        trim_leading_slash(s) == s.subrange(a, s.len() as int),
    decreases a,
{
    if a == 0 {
        assert(s.subrange(0, s.len() as int) =~= s);
    } else {
        let t = s.drop_first();
        lemma_trim_leading_slash_range(t, a - 1);
        assert(t.subrange(a - 1, t.len() as int) =~= s.subrange(a, s.len() as int));
    }
}

/// When everything from index `b` on is a slash and `b - 1` is not, the
/// trailing trim cuts exactly at `b`.
proof fn lemma_trim_trailing_slash_range(s: Seq<char>, b: int)
    requires
        0 <= b <= s.len(),
        forall|j: int| b <= j < s.len() ==> s[j] == '/',
        b == 0 || s[b - 1] != '/',
    ensures
        trim_trailing_slash(s) == s.subrange(0, b),
    decreases s.len() - b,
{
    if b == s.len() {
        assert(s.subrange(0, b) =~= s);
    } else {
        let t = s.drop_last();
        lemma_trim_trailing_slash_range(t, b);
        assert(t.subrange(0, b) =~= s.subrange(0, b));
    }
}

} // verus!

//! The forest: an append-only, authenticated map from blinded names to
//! versioned ciphertext entries, resolved to a single causally-latest entry
//! per name and persisted as one block in the content-addressed store.

use vstd::prelude::*;

use crate::blockstore::{content_id_of, clone_bytes, ContentId, FFIFriendlyBlockStore, FFIStore};
use crate::codec::{
    bytes_eq, bytes_lt, dec_bytes_spec, dec_u64_spec, enc_bytes, lex_lt, lemma_dec_bytes_round_trip,
    lemma_u64_le_round_trip, push_bytes, push_u64_le, read_bytes, read_u64_le, u64_le_seq,
};
use crate::crypto::{digest32, digest_of};
use crate::errors::FsError;

verus! {

/// The codec tag under which a serialized forest is stored.
pub const FOREST_CODEC: u64 = 0x51;

/// One versioned ciphertext under a blinded name. `depth` is the causal
/// marker: the length of the version's ancestor chain.
pub struct ForestEntry {
    pub name: Vec<u8>,
    pub depth: u64,
    pub cipher: Vec<u8>,
}

/// The mathematical content of one entry.
pub type EntryView = (Seq<u8>, u64, Seq<u8>);

/// The content of one stored entry.
pub open spec fn entry_view(e: ForestEntry) -> EntryView {
    (e.name@, e.depth, e.cipher@)
}

/// The contents of a list of stored entries.
pub open spec fn entries_views(s: Seq<ForestEntry>) -> Seq<EntryView> {
    Seq::new(s.len(), |i: int| entry_view(s[i]))
}

/// Whether entry `a` displaces entry `b` as the latest version of a name:
/// a strictly longer ancestor chain wins, and among equal chains the entry
/// whose ciphertext digest is lexicographically greater wins.
pub open spec fn entry_better(a: EntryView, b: EntryView) -> bool {
    a.1 > b.1 || (a.1 == b.1 && lex_lt(digest_of(b.2), digest_of(a.2)))
}

/// The causally-latest entry for `name` among `s`: a later entry displaces
/// an earlier one only when `entry_better` holds, so resolution is a
/// deterministic function of the entries alone.
pub open spec fn latest_of(s: Seq<EntryView>, name: Seq<u8>) -> Option<EntryView>
    decreases s.len(),
{
    if s.len() == 0 {
        None
    } else {
        let rest = latest_of(s.drop_last(), name);
        let e = s.last();
        if e.0 != name {
            rest
        } else {
            match rest {
                None => Some(e),
                Some(r) => if entry_better(e, r) {
                    Some(e)
                } else {
                    Some(r)
                },
            }
        }
    }
}

/// Entries already resolved stay resolved after an append, and an appended
/// entry under a fresh name becomes that name's latest version. This is the
/// append-only discipline: a `put` never erases or reorders what is present.
pub proof fn lemma_latest_after_append(s: Seq<EntryView>, e: EntryView, name: Seq<u8>)
    ensures
        e.0 != name ==> latest_of(s.push(e), name) == latest_of(s, name),
        e.0 == name && latest_of(s, name) is None ==> latest_of(s.push(e), name) == Some(e),
        e.0 == name && latest_of(s, name) is Some ==> latest_of(s.push(e), name) == (
        if entry_better(e, latest_of(s, name)->Some_0) {
            Some(e)
        } else {
            latest_of(s, name)
        }),
{
    assert(s.push(e).drop_last() =~= s);
    assert(s.push(e).last() == e);
}

/// Two writers racing for one slot: the forest is append-only, so both
/// entries survive, every other name is untouched, and when the slot was
/// fresh its resolution is one of the two racers, picked deterministically
/// by the resolution rule.
pub proof fn lemma_share_slot_race(s: Seq<EntryView>, e1: EntryView, e2: EntryView, name: Seq<u8>)
    requires
        e1.0 == name,
        e2.0 == name,
    ensures
        latest_of(s.push(e1).push(e2), name) is Some,
        latest_of(s, name) is None ==> (latest_of(s.push(e1).push(e2), name) == Some(e1)
            || latest_of(s.push(e1).push(e2), name) == Some(e2)),
        forall|m: Seq<u8>| m != name ==> latest_of(s.push(e1).push(e2), m) == latest_of(s, m),
{
    lemma_latest_after_append(s, e1, name);
    assert forall|m: Seq<u8>| m != name implies latest_of(s.push(e1).push(e2), m) == latest_of(
        s,
        m,
    ) by {
        lemma_latest_after_append(s, e1, m);
        lemma_latest_after_append(s.push(e1), e2, m);
    }
    lemma_latest_after_append(s.push(e1), e2, name);
}

// ---------------------------------------------------------------------------
// encoding
// ---------------------------------------------------------------------------

/// The byte encoding of one entry.
pub open spec fn enc_entry(e: EntryView) -> Seq<u8> {
    enc_bytes(e.0) + u64_le_seq(e.1) + enc_bytes(e.2)
}

/// The byte encoding of a list of entries, in order.
pub open spec fn enc_entries(s: Seq<EntryView>) -> Seq<u8>
    decreases s.len(),
{
    if s.len() == 0 {
        Seq::empty()
    } else {
        enc_entry(s[0]) + enc_entries(s.drop_first())
    }
}

/// Appending one entry extends the encoding at the back.
pub proof fn lemma_enc_entries_push(s: Seq<EntryView>, e: EntryView)
    ensures
        enc_entries(s.push(e)) == enc_entries(s) + enc_entry(e),
    decreases s.len(),
{
    if s.len() == 0 {
        assert(s.push(e).drop_first() =~= Seq::<EntryView>::empty());
        assert(s.push(e)[0] == e);
        assert(enc_entries(Seq::<EntryView>::empty()) == Seq::<u8>::empty());
        assert(enc_entries(s.push(e)) == enc_entry(e) + Seq::<u8>::empty());
        assert(enc_entries(s.push(e)) =~= enc_entries(s) + enc_entry(e));
    } else {
        assert(s.push(e).drop_first() =~= s.drop_first().push(e));
        assert(s.push(e)[0] == s[0]);
        lemma_enc_entries_push(s.drop_first(), e);
        assert(enc_entries(s.push(e)) == enc_entry(s[0]) + (enc_entries(s.drop_first())
            + enc_entry(e)));
        assert(enc_entries(s.push(e)) =~= enc_entries(s) + enc_entry(e));
    }
}

/// The byte encoding of a whole forest: the accumulator setup, the entry
/// count, then the entries.
pub open spec fn enc_forest(setup: Seq<u8>, s: Seq<EntryView>) -> Seq<u8> {
    enc_bytes(setup) + u64_le_seq(s.len() as u64) + enc_entries(s)
}

/// What decoding one entry at `pos` yields.
pub open spec fn dec_entry_spec(b: Seq<u8>, pos: int) -> Option<(EntryView, int)> {
    match dec_bytes_spec(b, pos) {
        None => None,
        Some((name, p1)) => match dec_u64_spec(b, p1) {
            None => None,
            Some((depth, p2)) => match dec_bytes_spec(b, p2) {
                None => None,
                Some((cipher, p3)) => Some(((name, depth, cipher), p3)),
            },
        },
    }
}

/// What decoding `n` consecutive entries at `pos` yields.
pub open spec fn dec_entries_spec(b: Seq<u8>, pos: int, n: nat) -> Option<(Seq<EntryView>, int)>
    decreases n,
{
    if n == 0 {
        Some((Seq::empty(), pos))
    } else {
        match dec_entry_spec(b, pos) {
            None => None,
            Some((e, p)) => match dec_entries_spec(b, p, (n - 1) as nat) {
                None => None,
                Some((rest, p2)) => Some((seq![e] + rest, p2)),
            },
        }
    }
}

/// What decoding a whole forest block yields.
pub open spec fn dec_forest_spec(b: Seq<u8>) -> Option<(Seq<u8>, Seq<EntryView>)> {
    match dec_bytes_spec(b, 0) {
        None => None,
        Some((setup, p0)) => match dec_u64_spec(b, p0) {
            None => None,
            Some((n, p1)) => match dec_entries_spec(b, p1, n as nat) {
                None => None,
                Some((es, p2)) => if p2 == b.len() {
                    Some((setup, es))
                } else {
                    None
                },
            },
        },
    }
}

/// If `b` carries `enc_entry(e)` at `pos`, decoding yields `e` back.
pub proof fn lemma_dec_entry_round_trip(b: Seq<u8>, pos: int, e: EntryView)
    requires
        0 <= pos,
        pos + enc_entry(e).len() <= b.len(),
        b.subrange(pos, pos + enc_entry(e).len()) == enc_entry(e),
        e.0.len() <= u64::MAX,
        e.2.len() <= u64::MAX,
    ensures
        dec_entry_spec(b, pos) == Some((e, pos + enc_entry(e).len())),
{
    let e1 = enc_bytes(e.0);
    let e2 = u64_le_seq(e.1);
    let e3 = enc_bytes(e.2);
    let whole = enc_entry(e);
    assert(b.subrange(pos, pos + e1.len() as int) =~= whole.subrange(0, e1.len() as int));
    assert(whole.subrange(0, e1.len() as int) =~= e1);
    lemma_dec_bytes_round_trip(b, pos, e.0);
    let p1 = pos + e1.len() as int;
    assert(b.subrange(p1, p1 + 8) =~= whole.subrange(e1.len() as int, e1.len() as int + 8));
    assert(whole.subrange(e1.len() as int, e1.len() as int + 8) =~= e2);
    lemma_u64_le_round_trip(e.1);
    let p2 = p1 + 8;
    assert(b.subrange(p2, p2 + e3.len() as int) =~= whole.subrange(
        e1.len() as int + 8,
        whole.len() as int,
    ));
    assert(whole.subrange(e1.len() as int + 8, whole.len() as int) =~= e3);
    lemma_dec_bytes_round_trip(b, p2, e.2);
}

/// Whether every name and ciphertext in `s` fits its length frame.
pub open spec fn entries_sized(s: Seq<EntryView>) -> bool {
    forall|i: int| 0 <= i < s.len() ==> (#[trigger] s[i]).0.len() <= u64::MAX && s[i].2.len()
        <= u64::MAX
}

/// If `b` carries `enc_entries(s)` at `pos`, decoding `s.len()` entries
/// yields `s` back.
pub proof fn lemma_dec_entries_round_trip(b: Seq<u8>, pos: int, s: Seq<EntryView>)
    requires
        0 <= pos,
        pos + enc_entries(s).len() <= b.len(),
        b.subrange(pos, pos + enc_entries(s).len()) == enc_entries(s),
        entries_sized(s),
    ensures
        dec_entries_spec(b, pos, s.len()) == Some((s, pos + enc_entries(s).len())),
    decreases s.len(),
{
    if s.len() == 0 {
        assert(dec_entries_spec(b, pos, 0) == Some((Seq::<EntryView>::empty(), pos)));
        assert(s =~= Seq::<EntryView>::empty());
    } else {
        let e = s[0];
        let rest = s.drop_first();
        let ee = enc_entry(e);
        let er = enc_entries(rest);
        assert(enc_entries(s) == ee + er);
        assert(b.subrange(pos, pos + ee.len() as int) =~= enc_entries(s).subrange(
            0,
            ee.len() as int,
        ));
        assert(enc_entries(s).subrange(0, ee.len() as int) =~= ee);
        lemma_dec_entry_round_trip(b, pos, e);
        let p1 = pos + ee.len() as int;
        assert(b.subrange(p1, p1 + er.len() as int) =~= enc_entries(s).subrange(
            ee.len() as int,
            enc_entries(s).len() as int,
        ));
        assert(enc_entries(s).subrange(ee.len() as int, enc_entries(s).len() as int) =~= er);
        lemma_dec_entries_round_trip(b, p1, rest);
        assert(seq![e] + rest =~= s);
    }
}

/// Decoding the encoding of a forest yields the forest back.
#[verifier::rlimit(60)]
pub proof fn lemma_dec_forest_round_trip(setup: Seq<u8>, s: Seq<EntryView>)
    requires
        setup.len() <= u64::MAX,
        s.len() <= u64::MAX,
        entries_sized(s),
    ensures
        dec_forest_spec(enc_forest(setup, s)) == Some((setup, s)),
{
    let b = enc_forest(setup, s);
    let e1 = enc_bytes(setup);
    assert(b.subrange(0, e1.len() as int) =~= e1);
    lemma_dec_bytes_round_trip(b, 0, setup);
    let p0 = e1.len() as int;
    assert(b.subrange(p0, p0 + 8) =~= u64_le_seq(s.len() as u64));
    lemma_u64_le_round_trip(s.len() as u64);
    let p1 = p0 + 8;
    assert(b.subrange(p1, p1 + enc_entries(s).len() as int) =~= enc_entries(s));
    lemma_dec_entries_round_trip(b, p1, s);
}

// ---------------------------------------------------------------------------
// the forest itself
// ---------------------------------------------------------------------------

/// The authenticated map: accumulator setup plus the append-only entry list.
pub struct Forest {
    setup: Vec<u8>,
    entries: Vec<ForestEntry>,
}

impl Forest {
    /// The accumulator setup this forest was created with.
    pub closed spec fn setup_view(&self) -> Seq<u8> {
        self.setup@
    }

    /// The contents of the forest, in insertion order.
    pub closed spec fn view_entries(&self) -> Seq<EntryView> {
        entries_views(self.entries@)
    }

    /// Whether every entry fits its length frames.
    pub open spec fn wf(&self) -> bool {
        self.setup_view().len() <= u64::MAX && self.view_entries().len() <= u64::MAX
            && entries_sized(self.view_entries())
    }

    /// Creates an empty forest around the given trusted accumulator setup.
    pub fn create(setup: Vec<u8>) -> (r: Forest)
        requires
            setup@.len() <= u64::MAX,
        ensures
            r.setup_view() == setup@,
            r.view_entries() == Seq::<EntryView>::empty(),
            r.wf(),
    {
        let r = Forest { setup, entries: Vec::new() };
        proof {
            assert(r.view_entries() =~= Seq::<EntryView>::empty());
        }
        r
    }

    /// The number of entries the forest holds.
    pub fn entry_count(&self) -> (r: u64)
        ensures
            r == self.view_entries().len(),
    {
        proof {
            assert(self.view_entries().len() == self.entries@.len());
        }
        self.entries.len() as u64
    }

    /// A copy of the accumulator setup.
    pub fn setup_bytes(&self) -> (r: Vec<u8>)
        ensures
            r@ == self.setup_view(),
    {
        clone_bytes(&self.setup)
    }

    /// Inserts a new versioned entry under `name`. Prior entries are never
    /// overwritten or removed: the forest only grows.
    pub fn put_encrypted(&mut self, name: Vec<u8>, depth: u64, cipher: Vec<u8>)
        requires
            old(self).wf(),
            old(self).view_entries().len() < u64::MAX,
            name@.len() <= u64::MAX,
            cipher@.len() <= u64::MAX,
        ensures
            final(self).setup_view() == old(self).setup_view(),
            final(self).view_entries() == old(self).view_entries().push(
                (name@, depth, cipher@),
            ),
            final(self).wf(),
    {
        let ghost old_entries = self.entries@;
        self.entries.push(ForestEntry { name, depth, cipher });
        proof {
            assert(self.view_entries() =~= entries_views(old_entries).push(
                (self.entries@.last().name@, self.entries@.last().depth,
                self.entries@.last().cipher@),
            ));
        }
    }

    /// Whether any entry for `name` exists.
    pub fn has_name(&self, name: &[u8]) -> (r: bool)
        ensures
            r == (latest_of(self.view_entries(), name@) is Some),
    {
        match self.get_latest(name) {
            Ok(_) => true,
            Err(_) => false,
        }
    }

    /// Resolves the set of entries for `name` to the single causally-latest
    /// one, returning its depth and a copy of its ciphertext; fails with
    /// `NotFound` when no entry for `name` exists.
    pub fn get_latest(&self, name: &[u8]) -> (r: Result<(u64, Vec<u8>), FsError>)
        ensures
            match r {
                Ok((d, c)) => latest_of(self.view_entries(), name@) == Some((name@, d, c@)),
                Err(e) => e == FsError::NotFound && latest_of(self.view_entries(), name@) is None,
            },
    {
        let ghost views = self.view_entries();
        let mut best: Option<(u64, usize)> = None;
        let mut best_digest: Vec<u8> = Vec::new();
        let mut i: usize = 0;
        while i < self.entries.len()
            invariant
                i <= self.entries@.len(),
                views == entries_views(self.entries@),
                match best {
                    None => latest_of(views.subrange(0, i as int), name@) is None,
                    Some((d, bi)) => bi < i && latest_of(views.subrange(0, i as int), name@)
                        == Some(views[bi as int]) && views[bi as int].0 == name@ && views[
                        bi as int].1 == d && best_digest@ == digest_of(views[bi as int].2),
                },
            decreases self.entries@.len() - i,
        {
            proof {
                assert(views.subrange(0, i as int + 1).drop_last() =~= views.subrange(
                    0,
                    i as int,
                ));
                assert(views.subrange(0, i as int + 1).last() == views[i as int]);
            }
            if bytes_eq(self.entries[i].name.as_slice(), name) {
                let d = digest32(self.entries[i].cipher.as_slice());
                let take = match &best {
                    None => true,
                    Some((bd, _bi)) => {
                        let bdv: u64 = *bd;
                        if self.entries[i].depth > bdv {
                            true
                        } else if self.entries[i].depth == bdv {
                            bytes_lt(best_digest.as_slice(), d.as_slice())
                        } else {
                            false
                        }
                    },
                };
                if take {
                    best = Some((self.entries[i].depth, i));
                    best_digest = d;
                }
            }
            i = i + 1;
        }
        proof {
            assert(views.subrange(0, views.len() as int) =~= views);
        }
        match best {
            None => Err(FsError::NotFound),
            Some((d, bi)) => Ok((d, clone_bytes(&self.entries[bi].cipher))),
        }
    }

    /// Serializes the forest and stores it as a single block, returning the
    /// new root content identifier.
    pub fn serialize<S: FFIStore>(&self, store: &mut FFIFriendlyBlockStore<S>) -> (r: Result<
        ContentId,
        FsError,
    >)
        requires
            self.wf(),
        ensures
            match r {
                Ok(id) => {
                    let b = enc_forest(self.setup_view(), self.view_entries());
                    id@ == content_id_of(b, FOREST_CODEC) && final(store).ffi_store.store_view()
                        == old(store).ffi_store.store_view().insert(id@, b)
                },
                Err(e) => e == FsError::BackendError && final(store).ffi_store.store_view() == old(
                    store,
                ).ffi_store.store_view(),
            },
    {
        let bytes = self.encode();
        store.put_block(bytes, FOREST_CODEC)
    }

    /// The byte encoding of this forest.
    pub fn encode(&self) -> (r: Vec<u8>)
        requires
            self.wf(),
        ensures
            r@ == enc_forest(self.setup_view(), self.view_entries()),
    {
        let ghost views = self.view_entries();
        let mut out: Vec<u8> = Vec::new();
        push_bytes(&mut out, self.setup.as_slice());
        push_u64_le(&mut out, self.entries.len() as u64);
        let ghost head = out@;
        let mut i: usize = 0;
        while i < self.entries.len()
            invariant
                i <= self.entries@.len(),
                views == entries_views(self.entries@),
                out@ == head + enc_entries(views.subrange(0, i as int)),
                head == enc_bytes(self.setup_view()) + u64_le_seq(views.len() as u64),
                views.len() == self.entries@.len(),
            decreases self.entries@.len() - i,
        {
            push_bytes(&mut out, self.entries[i].name.as_slice());
            push_u64_le(&mut out, self.entries[i].depth);
            push_bytes(&mut out, self.entries[i].cipher.as_slice());
            proof {
                lemma_enc_entries_push(views.subrange(0, i as int), views[i as int]);
                assert(views.subrange(0, i as int).push(views[i as int]) =~= views.subrange(
                    0,
                    i as int + 1,
                ));
                assert(out@ =~= head + enc_entries(views.subrange(0, i as int + 1)));
            }
            i = i + 1;
        }
        proof {
            assert(views.subrange(0, views.len() as int) =~= views);
            assert(out@ =~= enc_forest(self.setup_view(), views));
        }
        out
    }

    /// Rebuilds a forest from the block stored under `id`; fails with
    /// `NotFound` when the block is missing and with `DecryptionError` when
    /// its bytes are not a forest encoding.
    pub fn deserialize<S: FFIStore>(store: &FFIFriendlyBlockStore<S>, id: &ContentId) -> (r:
        Result<Forest, FsError>)
        ensures
            match r {
                Ok(f) => store.ffi_store.store_view().contains_key(id@) && dec_forest_spec(
                    store.ffi_store.store_view()[id@],
                ) == Some((f.setup_view(), f.view_entries())) && f.wf(),
                Err(e) => (e == FsError::NotFound && !store.ffi_store.store_view().contains_key(
                    id@,
                )) || (e == FsError::DecryptionError
                    && store.ffi_store.store_view().contains_key(id@) && dec_forest_spec(
                    store.ffi_store.store_view()[id@],
                ) is None),
            },
    {
        let b = store.get_block(id)?;
        Forest::decode(&b)
    }

    /// Parses a forest from its byte encoding.
    pub fn decode(b: &Vec<u8>) -> (r: Result<Forest, FsError>)
        ensures
            match r {
                Ok(f) => dec_forest_spec(b@) == Some((f.setup_view(), f.view_entries())) && f.wf(),
                Err(e) => e == FsError::DecryptionError && dec_forest_spec(b@) is None,
            },
    {
        let (setup, p0) = read_bytes(b, 0)?;
        let (n, p1) = read_u64_le(b, p0)?;
        let (entries, p2) = Forest::read_entries(b, p1, n)?;
        if p2 != b.len() {
            return Err(FsError::DecryptionError);
        }
        let f = Forest { setup, entries };
        Ok(f)
    }

    /// Parses `n` consecutive entries starting at `pos`.
    fn read_entries(b: &Vec<u8>, pos: usize, n: u64) -> (r: Result<
        (Vec<ForestEntry>, usize),
        FsError,
    >)
        ensures
            match r {
                Ok((v, p)) => dec_entries_spec(b@, pos as int, n as nat) == Some(
                    (entries_views(v@), p as int),
                ) && v@.len() == n && entries_sized(entries_views(v@)),
                Err(e) => e == FsError::DecryptionError && dec_entries_spec(
                    b@,
                    pos as int,
                    n as nat,
                ) is None,
            },
        decreases n,
    {
        if n == 0 {
            let v: Vec<ForestEntry> = Vec::new();
            proof {
                assert(entries_views(v@) =~= Seq::<EntryView>::empty());
            }
            return Ok((v, pos));
        }
        let (name, q1) = read_bytes(b, pos)?;
        let (depth, q2) = read_u64_le(b, q1)?;
        let (cipher, q3) = read_bytes(b, q2)?;
        let ghost e = (name@, depth, cipher@);
        let (mut rest, p) = Forest::read_entries(b, q3, n - 1)?;
        proof {
            assert(name@.len() <= u64::MAX && cipher@.len() <= u64::MAX);
        }
        let ghost rest0 = rest@;
        rest.insert(0, ForestEntry { name, depth, cipher });
        proof {
            assert(rest@.drop_first() =~= rest0);
            assert(entry_view(rest@[0]) == e);
            assert forall|i: int| 0 <= i < rest@.len() implies #[trigger] entries_views(rest@)[i]
                == (seq![e] + entries_views(rest0))[i] by {
                if i > 0 {
                    assert(rest@[i] == rest0[i - 1]);
                }
            }
            assert(entries_views(rest@) =~= seq![e] + entries_views(rest0));
        }
        Ok((rest, p))
    }
}

} // verus!

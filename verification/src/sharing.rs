//! The counter-indexed sharing protocol: access-key capsules encrypted for
//! a recipient's public exchange key and stored in the forest under
//! deterministic, discoverable names.

use vstd::prelude::*;

use crate::blockstore::clone_bytes;
use crate::codec::{
    dec_bytes_spec, enc_bytes, lemma_dec_bytes_round_trip, push_bytes, push_u64_le, u64_le_seq,
    read_bytes,
};
use crate::crypto::{digest32, digest_of};
use crate::errors::FsError;
use crate::exchange::{oaep_decrypt_of, PublicExchangeKey, SeededExchangeKey};
use crate::forest::{latest_of, EntryView, Forest};

verus! {

/// Everything needed to locate and decrypt one node's current version from
/// the forest: the blinded name its versions are stored under, and the
/// symmetric key that seals them.
pub struct AccessKey {
    pub label: Vec<u8>,
    pub key: Vec<u8>,
}

impl View for AccessKey {
    type V = (Seq<u8>, Seq<u8>);

    open spec fn view(&self) -> (Seq<u8>, Seq<u8>) {
        (self.label@, self.key@)
    }
}

/// The byte encoding of an access key.
pub open spec fn enc_access_key(v: (Seq<u8>, Seq<u8>)) -> Seq<u8> {
    enc_bytes(v.0) + enc_bytes(v.1)
}

/// What decoding an access key from a whole buffer yields.
pub open spec fn dec_access_key_spec(b: Seq<u8>) -> Option<(Seq<u8>, Seq<u8>)> {
    match dec_bytes_spec(b, 0) {
        None => None,
        Some((label, p)) => match dec_bytes_spec(b, p) {
            None => None,
            Some((key, p2)) => if p2 == b.len() {
                Some((label, key))
            } else {
                None
            },
        },
    }
}

impl AccessKey {
    /// An independent copy.
    pub fn duplicate(&self) -> (r: AccessKey)
        ensures
            r@ == self@,
    {
        AccessKey { label: clone_bytes(&self.label), key: clone_bytes(&self.key) }
    }

    /// The byte encoding of this access key; it decodes back to the same
    /// label and key.
    pub fn encode(&self) -> (r: Vec<u8>)
        ensures
            r@ == enc_access_key(self@),
            dec_access_key_spec(r@) == Some(self@),
    {
        let l1 = self.label.len();
        let l2 = self.key.len();
        proof {
            assert(self.label@.len() == l1 && self.key@.len() == l2);
        }
        let mut out: Vec<u8> = Vec::new();
        push_bytes(&mut out, self.label.as_slice());
        push_bytes(&mut out, self.key.as_slice());
        proof {
            let e1 = enc_bytes(self.label@);
            let e2 = enc_bytes(self.key@);
            assert(out@ =~= e1 + e2);
            assert(out@.subrange(0, e1.len() as int) =~= e1);
            lemma_dec_bytes_round_trip(out@, 0, self.label@);
            assert(out@.subrange(e1.len() as int, out@.len() as int) =~= e2);
            lemma_dec_bytes_round_trip(out@, e1.len() as int, self.key@);
        }
        out
    }

    /// Parses an access key from its byte encoding.
    pub fn decode(b: &Vec<u8>) -> (r: Result<AccessKey, FsError>)
        ensures
            match r {
                Ok(ak) => dec_access_key_spec(b@) == Some(ak@),
                Err(e) => e == FsError::DecryptionError && dec_access_key_spec(b@) is None,
            },
    {
        let (label, p) = match read_bytes(b, 0) {
            Ok(x) => x,
            Err(_) => { return Err(FsError::DecryptionError); },
        };
        let (key, p2) = match read_bytes(b, p) {
            Ok(x) => x,
            Err(_) => { return Err(FsError::DecryptionError); },
        };
        if p2 != b.len() {
            return Err(FsError::DecryptionError);
        }
        Ok(AccessKey { label, key })
    }
}

// ---------------------------------------------------------------------------
// share slot naming and discovery
// ---------------------------------------------------------------------------

/// The blinded, deterministic name of the share slot for one counter,
/// owner identity and recipient public key, salted by the forest's
/// accumulator setup. The leading tag byte keeps share slots apart from
/// snapshot labels, whose names start with a different tag.
pub open spec fn share_name_of(
    setup: Seq<u8>,
    counter: u64,
    did: Seq<u8>,
    modulus: Seq<u8>,
) -> Seq<u8> {
    seq![1u8] + digest_of(setup + u64_le_seq(counter) + enc_bytes(did) + enc_bytes(modulus))
}

/// Computes the share-slot name for `(counter, root_did, recipient)` in this
/// forest.
pub fn create_share_name(counter: u64, root_did: &str, recipient_modulus: &[u8], forest: &Forest)
    -> (r: Vec<u8>)
    ensures
        r@ == share_name_of(
            forest.setup_view(),
            counter,
            vstd::utf8::encode_utf8(root_did@),
            recipient_modulus@,
        ),
        r@.len() == 33,
{
    let did = root_did.as_bytes_vec();
    let mut input: Vec<u8> = Vec::new();
    crate::codec::append_bytes(&mut input, forest.setup_bytes().as_slice());
    push_u64_le(&mut input, counter);
    push_bytes(&mut input, did.as_slice());
    push_bytes(&mut input, recipient_modulus);
    let d = digest32(input.as_slice());
    let mut r: Vec<u8> = Vec::new();
    r.push(1u8);
    crate::codec::append_bytes(&mut r, d.as_slice());
    proof {
        assert(input@ =~= forest.setup_view() + u64_le_seq(counter) + enc_bytes(
            vstd::utf8::encode_utf8(root_did@),
        ) + enc_bytes(recipient_modulus@));
        assert(r@ =~= seq![1u8] + d@);
    }
    r
}

/// Whether the share slot for `counter` is occupied.
pub open spec fn slot_used(
    entries: Seq<EntryView>,
    setup: Seq<u8>,
    counter: u64,
    did: Seq<u8>,
    modulus: Seq<u8>,
) -> bool {
    latest_of(entries, share_name_of(setup, counter, did, modulus)) is Some
}

/// The last counter of the unbroken run of occupied share slots that starts
/// at `c` and is probed no further than `hi`: a deterministic function of the
/// forest contents, so every prober that starts at an occupied `c` lands on
/// the same counter.
pub open spec fn run_end(
    entries: Seq<EntryView>,
    setup: Seq<u8>,
    did: Seq<u8>,
    modulus: Seq<u8>,
    c: u64,
    hi: u64,
) -> u64
    decreases hi - c,
{
    if c + 1 >= hi {
        c
    } else if slot_used(entries, setup, (c + 1) as u64, did, modulus) {
        run_end(entries, setup, did, modulus, (c + 1) as u64, hi)
    } else {
        c
    }
}

/// A counter with the run property — every slot from `s` through `c` is
/// occupied and the slot after `c` is free or out of range — is exactly the
/// run's end.
proof fn lemma_run_end(
    entries: Seq<EntryView>,
    setup: Seq<u8>,
    did: Seq<u8>,
    modulus: Seq<u8>,
    s: u64,
    c: u64,
    hi: u64,
)
    requires
        s <= c < hi,
        forall|j: u64| s <= j <= c ==> slot_used(entries, setup, j, did, modulus),
        c + 1 < hi ==> !slot_used(entries, setup, (c + 1) as u64, did, modulus),
    ensures
        run_end(entries, setup, did, modulus, s, hi) == c,
    decreases c - s,
{
    if s < c {
        assert(slot_used(entries, setup, (s + 1) as u64, did, modulus));
        lemma_run_end(entries, setup, did, modulus, (s + 1) as u64, c, hi);
    }
}

/// Probes the counter range `[lo, hi)` linearly and returns the last counter
/// of the unbroken run of occupied slots starting at `lo`, or nothing when
/// the first slot is already free. Callers add one to get the next free slot.
pub fn find_latest_share_counter(
    lo: u64,
    hi: u64,
    recipient_modulus: &[u8],
    root_did: &str,
    forest: &Forest,
) -> (r: Option<u64>)
    ensures
        ({
            let setup = forest.setup_view();
            let did = vstd::utf8::encode_utf8(root_did@);
            let es = forest.view_entries();
            match r {
                Some(c) => lo <= c < hi && (forall|j: u64|
                    lo <= j <= c ==> slot_used(es, setup, j, did, recipient_modulus@)) && (c + 1
                    < hi ==> !slot_used(es, setup, (c + 1) as u64, did, recipient_modulus@)) && c
                    == run_end(es, setup, did, recipient_modulus@, lo, hi),
                None => lo >= hi || !slot_used(es, setup, lo, did, recipient_modulus@),
            }
        }),
{
    let ghost setup = forest.setup_view();
    let ghost did = vstd::utf8::encode_utf8(root_did@);
    let ghost es = forest.view_entries();
    if lo >= hi {
        return None;
    }
    let mut c: u64 = lo;
    while c < hi
        invariant
            lo <= c <= hi,
            setup == forest.setup_view(),
            did == vstd::utf8::encode_utf8(root_did@),
            es == forest.view_entries(),
            forall|j: u64| lo <= j < c ==> slot_used(es, setup, j, did, recipient_modulus@),
        decreases hi - c,
    {
        let name = create_share_name(c, root_did, recipient_modulus, forest);
        if !forest.has_name(name.as_slice()) {
            if c == lo {
                return None;
            }
            proof {
                lemma_run_end(es, setup, did, recipient_modulus@, lo, (c - 1) as u64, hi);
            }
            return Some(c - 1);
        }
        c = c + 1;
    }
    if c == lo {
        return None;
    }
    proof {
        lemma_run_end(es, setup, did, recipient_modulus@, lo, (c - 1) as u64, hi);
    }
    Some(c - 1)
}

// ---------------------------------------------------------------------------
// producing and consuming shares
// ---------------------------------------------------------------------------

/// Encrypts the access key under the recipient's public exchange key and
/// stores the capsule at the deterministic share-slot name. The forest only
/// grows: a racing share of the same slot adds a second entry, it never
/// erases the first.
pub fn share(
    access_key: &AccessKey,
    counter: u64,
    root_did: &str,
    recipient: &PublicExchangeKey,
    forest: &mut Forest,
) -> (r: Result<(), FsError>)
    requires
        old(forest).wf(),
        old(forest).view_entries().len() < u64::MAX,
    ensures
        final(forest).wf(),
        final(forest).setup_view() == old(forest).setup_view(),
        match r {
            Ok(_) => exists|c: Seq<u8>|
                final(forest).view_entries() == old(forest).view_entries().push(
                    (
                        share_name_of(
                            old(forest).setup_view(),
                            counter,
                            vstd::utf8::encode_utf8(root_did@),
                            recipient@,
                        ),
                        0u64,
                        c,
                    ),
                ) && (forall|s: Seq<u8>|
                    crate::exchange::rsa_modulus_of(s) == recipient@ ==> oaep_decrypt_of(s, c)
                        == Some(enc_access_key(access_key@))),
            Err(e) => e == FsError::DecryptionError && *final(forest) == *old(forest)
                && enc_access_key(access_key@).len() + 66 > crate::exchange::modulus_size(
                recipient@,
            ),
        },
{
    let payload = access_key.encode();
    let cipher = recipient.encrypt(payload.as_slice())?;
    let clen = cipher.len();
    proof {
        assert(cipher@.len() == clen);
    }
    let name = create_share_name(counter, root_did, recipient.duplicate_modulus().as_slice(), forest);
    let ghost cv = cipher@;
    forest.put_encrypted(name, 0, cipher);
    proof {
        assert(forest.view_entries() == old(forest).view_entries().push(
            (
                share_name_of(
                    old(forest).setup_view(),
                    counter,
                    vstd::utf8::encode_utf8(root_did@),
                    recipient@,
                ),
                0u64,
                cv,
            ),
        ));
        assert(forall|s: Seq<u8>|
            crate::exchange::rsa_modulus_of(s) == recipient@ ==> oaep_decrypt_of(s, cv) == Some(
                enc_access_key(access_key@),
            ));
    }
    Ok(())
}

/// What receiving a share deterministically yields from the forest contents,
/// a slot name and the recipient's seed: the capsule is resolved, decrypted
/// and decoded.
pub open spec fn receive_spec(entries: Seq<EntryView>, name: Seq<u8>, seed: Seq<u8>) -> Option<
    (Seq<u8>, Seq<u8>),
> {
    match latest_of(entries, name) {
        None => None,
        Some(e) => match oaep_decrypt_of(seed, e.2) {
            None => None,
            Some(plain) => dec_access_key_spec(plain),
        },
    }
}

/// Looks the share slot up, decrypts the capsule with the recipient's
/// private exchange key and decodes the access key. Fails with `NotFound`
/// when the slot is empty and with `DecryptionError` when the capsule does
/// not decrypt or decode — a mismatched key never yields wrong data.
pub fn receive_share(name: &[u8], keypair: &SeededExchangeKey, forest: &Forest) -> (r: Result<
    AccessKey,
    FsError,
>)
    ensures
        match r {
            Ok(ak) => receive_spec(forest.view_entries(), name@, keypair@) == Some(ak@),
            Err(e) => receive_spec(forest.view_entries(), name@, keypair@) is None && ((e
                == FsError::NotFound && latest_of(forest.view_entries(), name@) is None) || (e
                == FsError::DecryptionError && latest_of(forest.view_entries(), name@) is Some)),
        },
{
    let (_depth, cipher) = match forest.get_latest(name) {
        Ok(x) => x,
        Err(_) => { return Err(FsError::NotFound); },
    };
    let plain = keypair.decrypt(cipher.as_slice())?;
    AccessKey::decode(&plain)
}

/// Decoding the encoding of an access key yields it back.
pub proof fn lemma_dec_access_key_round_trip(v: (Seq<u8>, Seq<u8>))
    requires
        v.0.len() <= u64::MAX,
        v.1.len() <= u64::MAX,
    ensures
        dec_access_key_spec(enc_access_key(v)) == Some(v),
{
    let b = enc_access_key(v);
    let e1 = enc_bytes(v.0);
    let e2 = enc_bytes(v.1);
    assert(b.subrange(0, e1.len() as int) =~= e1);
    lemma_dec_bytes_round_trip(b, 0, v.0);
    assert(b.subrange(e1.len() as int, b.len() as int) =~= e2);
    lemma_dec_bytes_round_trip(b, e1.len() as int, v.1);
}

/// A share placed in a fresh slot for a recipient's public key, received
/// with the matching private key, yields exactly the access key that was
/// shared.
pub proof fn lemma_share_receive_round_trip(
    f0: Seq<EntryView>,
    f1: Seq<EntryView>,
    setup: Seq<u8>,
    counter: u64,
    did: Seq<u8>,
    seed: Seq<u8>,
    ak: (Seq<u8>, Seq<u8>),
    c: Seq<u8>,
)
    requires
        latest_of(f0, share_name_of(setup, counter, did, crate::exchange::rsa_modulus_of(seed)))
            is None,
        f1 == f0.push(
            (share_name_of(setup, counter, did, crate::exchange::rsa_modulus_of(seed)), 0u64, c),
        ),
        oaep_decrypt_of(seed, c) == Some(enc_access_key(ak)),
        ak.0.len() <= u64::MAX,
        ak.1.len() <= u64::MAX,
    ensures
        receive_spec(
            f1,
            share_name_of(setup, counter, did, crate::exchange::rsa_modulus_of(seed)),
            seed,
        ) == Some(ak),
{
    let name = share_name_of(setup, counter, did, crate::exchange::rsa_modulus_of(seed));
    crate::forest::lemma_latest_after_append(f0, (name, 0u64, c), name);
    lemma_dec_access_key_round_trip(ak);
}

} // verus!
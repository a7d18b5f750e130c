//! The exchange keypair of the sharing protocol: an RSA keypair derived
//! deterministically from a 32-byte seed, used only to encrypt and decrypt
//! access-key capsules, never for node encryption.

use vstd::prelude::*;

use crate::blockstore::{content_id_of, ContentId, FFIFriendlyBlockStore, FFIStore};
use crate::errors::FsError;

verus! {

use rand_chacha::rand_core::SeedableRng;
use rsa::traits::PublicKeyParts;

/// The codec tag under which a published public key is stored.
pub const RAW_CODEC: u64 = 0x55;

#[verifier::external_type_specification]
#[verifier::external_body]
pub struct ExRsaPrivateKey(rsa::RsaPrivateKey);

#[verifier::external_type_specification]
#[verifier::external_body]
pub struct ExRsaPublicKey(rsa::RsaPublicKey);

/// Whether seeded key generation succeeds for a seed, named: the generator
/// draws randomness only from the seed, so success is a function of it.
pub uninterp spec fn rsa_keygen_ok(seed: Seq<u8>) -> bool;

/// The big-endian modulus bytes of the public key derived from a seed,
/// named: seeded key generation is a function of the seed alone.
pub uninterp spec fn rsa_modulus_of(seed: Seq<u8>) -> Seq<u8>;

/// The byte size of the RSA modulus whose big-endian encoding is `m`: the
/// length of `m` with leading zero bytes dropped. An OAEP ciphertext is
/// exactly this long, and the padding leaves room for plaintexts up to this
/// size minus the two digest blocks and two marker bytes.
pub open spec fn modulus_size(m: Seq<u8>) -> nat
    decreases m.len(),
{
    if m.len() > 0 && m[0] == 0 {
        modulus_size(m.drop_first())
    } else {
        m.len()
    }
}

/// What OAEP decryption under the private key derived from a seed yields on
/// a ciphertext, named: decryption is deterministic given key and bytes.
pub uninterp spec fn oaep_decrypt_of(seed: Seq<u8>, cipher: Seq<u8>) -> Option<Seq<u8>>;

/// The private half of the exchange keypair, remembered by its seed; it is
/// regenerated from the seed on demand and never persisted.
pub struct SeededExchangeKey {
    key: rsa::RsaPrivateKey,
    seed: Vec<u8>,
}

impl View for SeededExchangeKey {
    type V = Seq<u8>;

    closed spec fn view(&self) -> Seq<u8> {
        self.seed@
    }
}

impl SeededExchangeKey {
    /// Relies on rsa's `RsaPrivateKey::new` driven by rand_chacha's
    /// `ChaCha12Rng::from_seed`: the generator is seeded by the 32-byte
    /// input alone, so the derived keypair, and whether the derivation
    /// succeeds at all, are functions of the seed.
    #[verifier::external_body]
    pub fn from_seed(seed: &[u8]) -> (r: Result<SeededExchangeKey, FsError>)
        requires
            seed@.len() == 32,
        ensures
            match r {
                Ok(k) => k@ == seed@ && rsa_keygen_ok(seed@),
                Err(e) => e == FsError::InvalidInput && !rsa_keygen_ok(seed@),
            },
    {
        let mut arr = [0u8; 32];
        arr.copy_from_slice(seed);
        let rng = &mut rand_chacha::ChaCha12Rng::from_seed(arr);
        match rsa::RsaPrivateKey::new(rng, 2048) {
            Ok(key) => Ok(SeededExchangeKey { key, seed: seed.to_vec() }),
            Err(_) => Err(FsError::InvalidInput),
        }
    }

    /// Relies on rsa's `PublicKeyParts::n` and num-bigint's `to_bytes_be`:
    /// the raw big-endian modulus bytes of the public key, a function of
    /// the seed the key was derived from. The generator retries until the
    /// modulus has exactly 2048 bits, so the minimal big-endian encoding is
    /// 256 bytes and its leading byte is nonzero.
    #[verifier::external_body]
    pub fn encode_public_key(&self) -> (r: Vec<u8>)
        ensures
            r@ == rsa_modulus_of(self@),
            r@.len() == 256,
            r@[0] != 0,
    {
        self.key.n().to_bytes_be()
    }

    /// Relies on rsa's `RsaPrivateKey::decrypt` with OAEP over SHA3-256:
    /// deterministic given the key and the ciphertext, and an error exactly
    /// when the padding does not verify.
    #[verifier::external_body]
    pub fn decrypt(&self, ciphertext: &[u8]) -> (r: Result<Vec<u8>, FsError>)
        ensures
            match r {
                Ok(p) => oaep_decrypt_of(self@, ciphertext@) == Some(p@),
                Err(e) => e == FsError::DecryptionError && oaep_decrypt_of(
                    self@,
                    ciphertext@,
                ) is None,
            },
    {
        let padding = rsa::Oaep::new::<sha3::Sha3_256>();
        match self.key.decrypt(padding, ciphertext) {
            Ok(p) => Ok(p),
            Err(_) => Err(FsError::DecryptionError),
        }
    }

    /// Publishes the encoded public key as a raw content-addressed block, so
    /// that anyone holding the store can discover it.
    pub fn store_public_key<S: FFIStore>(&self, store: &mut FFIFriendlyBlockStore<S>) -> (r:
        Result<ContentId, FsError>)
        ensures
            match r {
                Ok(id) => id@ == content_id_of(rsa_modulus_of(self@), RAW_CODEC)
                    && final(store).ffi_store.store_view()
                    == old(store).ffi_store.store_view().insert(id@, rsa_modulus_of(self@)),
                Err(e) => e == FsError::BackendError && final(store).ffi_store.store_view()
                    == old(store).ffi_store.store_view(),
            },
    {
        let encoded = self.encode_public_key();
        store.put_block(encoded, RAW_CODEC)
    }
}

/// The public half of an exchange keypair, rebuilt from its modulus bytes.
pub struct PublicExchangeKey {
    key: rsa::RsaPublicKey,
    modulus: Vec<u8>,
}

impl View for PublicExchangeKey {
    type V = Seq<u8>;

    closed spec fn view(&self) -> Seq<u8> {
        self.modulus@
    }
}

impl PublicExchangeKey {
    /// A copy of the modulus bytes this key was built from.
    pub fn duplicate_modulus(&self) -> (r: Vec<u8>)
        ensures
            r@ == self@,
    {
        crate::blockstore::clone_bytes(&self.modulus)
    }

    /// Relies on rsa's `RsaPublicKey::new` over num-bigint's
    /// `from_bytes_be`, with the fixed public exponent that seeded key
    /// generation also uses.
    #[verifier::external_body]
    pub fn from_modulus(modulus: &[u8]) -> (r: Result<PublicExchangeKey, FsError>)
        ensures
            match r {
                Ok(k) => k@ == modulus@,
                Err(e) => e == FsError::InvalidInput,
            },
    {
        let n = rsa::BigUint::from_bytes_be(modulus);
        let e = rsa::BigUint::from(65537u32);
        match rsa::RsaPublicKey::new(n, e) {
            Ok(key) => Ok(PublicExchangeKey { key, modulus: modulus.to_vec() }),
            Err(_) => Err(FsError::InvalidInput),
        }
    }

    /// Relies on rsa's `RsaPublicKey::encrypt` with OAEP over SHA3-256: it
    /// succeeds exactly when the plaintext fits the padding (the modulus
    /// size minus two 32-byte digests and two marker bytes), the ciphertext
    /// is one modulus-sized block, and whatever randomness the padding
    /// draws, decryption under a private key whose public modulus matches
    /// restores the plaintext.
    #[verifier::external_body]
    pub fn encrypt(&self, data: &[u8]) -> (r: Result<Vec<u8>, FsError>)
        ensures
            match r {
                Ok(c) => data@.len() + 66 <= modulus_size(self@) && c@.len() == modulus_size(self@)
                    && (forall|s: Seq<u8>| rsa_modulus_of(s) == self@ ==> oaep_decrypt_of(s, c@)
                    == Some(data@)),
                Err(e) => e == FsError::DecryptionError && data@.len() + 66 > modulus_size(self@),
            },
    {
        let padding = rsa::Oaep::new::<sha3::Sha3_256>();
        match self.key.encrypt(&mut rand::thread_rng(), padding, data) {
            Ok(c) => Ok(c),
            Err(_) => Err(FsError::DecryptionError),
        }
    }
}

/// Deriving the exchange keypair is deterministic: two keys derived from the
/// same seed carry the same public-key encoding.
pub proof fn lemma_keypair_derivation_deterministic(
    k1: SeededExchangeKey,
    k2: SeededExchangeKey,
    e1: Seq<u8>,
    e2: Seq<u8>,
)
    requires
        k1@ == k2@,
        e1 == rsa_modulus_of(k1@),
        e2 == rsa_modulus_of(k2@),
    ensures
        e1 == e2,
{
}

} // verus!

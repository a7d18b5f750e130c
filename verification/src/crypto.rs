//! Cryptographic building blocks: the content digest, randomness and the
//! clock (each trusted), and on top of them a verified authenticated
//! symmetric sealing scheme and hex encoding.

use vstd::prelude::*;

use crate::codec::{
    append_bytes, dec_bytes_spec, enc_bytes, push_bytes, bytes_eq, u64_le_seq, push_u64_le,
    lemma_dec_bytes_round_trip,
};
use crate::errors::FsError;

verus! {

use sha3::Digest;

/// The SHA3-256 digest of a byte string, named: it is a function of the
/// input alone, computed by an outside crate.
pub uninterp spec fn digest_of(bytes: Seq<u8>) -> Seq<u8>;

/// Relies on sha3's `Sha3_256::digest`: the digest is a function of the
/// input bytes alone and is always 32 bytes long.
#[verifier::external_body]
pub fn digest32(bytes: &[u8]) -> (r: Vec<u8>)
    ensures
        r@ == digest_of(bytes@),
        r@.len() == 32,
{
    sha3::Sha3_256::digest(bytes).to_vec()
}

/// Relies on rand's `random`: 32 bytes drawn from the thread-local generator.
/// Nothing is promised of the values; only the length is fixed.
#[verifier::external_body]
pub fn random_bytes32() -> (r: Vec<u8>)
    ensures
        r@.len() == 32,
{
    rand::random::<[u8; 32]>().to_vec()
}

/// Relies on chrono's `DateTime<Utc>` conversion from the system clock: the
/// wall clock in whole seconds, defined on either side of the epoch. Nothing
/// can be promised of the value.
#[verifier::external_body]
pub fn now_seconds() -> i64 {
    chrono::DateTime::<chrono::Utc>::from(std::time::SystemTime::now()).timestamp()
}

// ---------------------------------------------------------------------------
// hex encoding
// ---------------------------------------------------------------------------

/// The hex character for one value below sixteen.
pub open spec fn hex_digit(n: u8) -> char {
    if n == 0 { '0' } else if n == 1 { '1' } else if n == 2 { '2' } else if n == 3 { '3' }
    else if n == 4 { '4' } else if n == 5 { '5' } else if n == 6 { '6' } else if n == 7 { '7' }
    else if n == 8 { '8' } else if n == 9 { '9' } else if n == 10 { 'a' } else if n == 11 { 'b' }
    else if n == 12 { 'c' } else if n == 13 { 'd' } else if n == 14 { 'e' } else { 'f' }
}

/// The lowercase hex rendering of a byte string, two characters per byte.
pub open spec fn hex_of(bytes: Seq<u8>) -> Seq<char> {
    Seq::new(
        bytes.len() * 2,
        |i: int| if i % 2 == 0 { hex_digit(bytes[i / 2] >> 4) } else { hex_digit(bytes[i / 2] & 0xf) },
    )
}

/// A one-character string slice for one value below sixteen.
fn hex_char_str(n: u8) -> (r: &'static str)
    requires
        n < 16,
    ensures
        r@ == seq![hex_digit(n)],
{
    proof {
        reveal_strlit("0"); reveal_strlit("1"); reveal_strlit("2"); reveal_strlit("3");
        reveal_strlit("4"); reveal_strlit("5"); reveal_strlit("6"); reveal_strlit("7");
        reveal_strlit("8"); reveal_strlit("9"); reveal_strlit("a"); reveal_strlit("b");
        reveal_strlit("c"); reveal_strlit("d"); reveal_strlit("e"); reveal_strlit("f");
    }
    match n {
        0 => "0", 1 => "1", 2 => "2", 3 => "3", 4 => "4", 5 => "5", 6 => "6", 7 => "7",
        8 => "8", 9 => "9", 10 => "a", 11 => "b", 12 => "c", 13 => "d", 14 => "e", _ => "f",
    }
}

/// Renders bytes as lowercase hex text.
pub fn bytes_to_hex(bytes: &[u8]) -> (r: String)
    ensures
        r@ == hex_of(bytes@),
{
    let mut out = String::new();
    let mut i: usize = 0;
    while i < bytes.len()
        invariant
            i <= bytes.len(),
            out@ == hex_of(bytes@.subrange(0, i as int)),
        decreases bytes.len() - i,
    {
        let b = bytes[i];
        assert(b >> 4 < 16 && b & 0xf < 16) by (bit_vector);
        let hi: u8 = b >> 4;
        let lo: u8 = b & 0xf;
        out.append(hex_char_str(hi));
        out.append(hex_char_str(lo));
        i = i + 1;
        assert(out@ =~= hex_of(bytes@.subrange(0, i as int)));
    }
    proof {
        assert(bytes@.subrange(0, bytes@.len() as int) =~= bytes@);
    }
    out
}

// ---------------------------------------------------------------------------
// keystream and xor
// ---------------------------------------------------------------------------

/// Block `j` of the keystream under `key`.
pub open spec fn stream_block(key: Seq<u8>, j: u64) -> Seq<u8> {
    digest_of(key + u64_le_seq(j))
}

/// The first `n` bytes of the keystream under `key`.
pub open spec fn keystream_of(key: Seq<u8>, n: nat) -> Seq<u8> {
    Seq::new(n, |i: int| stream_block(key, (i / 32) as u64)[i % 32])
}

/// Pointwise xor of two equally long byte strings.
pub open spec fn xor_seq(a: Seq<u8>, b: Seq<u8>) -> Seq<u8> {
    Seq::new(a.len(), |i: int| a[i] ^ b[i])
}

/// Computes the first `n` keystream bytes under `key`.
pub fn keystream(key: &[u8], n: usize) -> (r: Vec<u8>)
    ensures
        r@ == keystream_of(key@, n as nat),
{
    let mut out: Vec<u8> = Vec::new();
    let mut j: u64 = 0;
    while out.len() < n
        invariant
            out@.len() <= n,
            out@.len() == 32 * (j as int) || out@.len() == n,
            forall|i: int| 0 <= i < out@.len() ==> out@[i] == stream_block(key@, (i / 32) as u64)[i % 32],
        decreases n - out.len(),
    {
        assert(out@.len() == 32 * (j as int));
        let mut block_in: Vec<u8> = Vec::new();
        append_bytes(&mut block_in, key);
        push_u64_le(&mut block_in, j);
        let d = digest32(block_in.as_slice());
        let mut k: usize = 0;
        let ghost base = out@.len() as int;
        while k < 32 && out.len() < n
            invariant
                k <= 32,
                d@ == stream_block(key@, j),
                d@.len() == 32,
                out@.len() == base + k,
                base == 32 * (j as int),
                out@.len() <= n,
                forall|i: int| 0 <= i < out@.len() ==> out@[i] == stream_block(key@, (i / 32) as u64)[
                    i % 32],
            decreases 32 - k,
        {
            proof {
                let p = base + k as int;
                assert(p == 32 * (j as int) + (k as int));
                assert(p / 32 == j as int && p % 32 == k as int) by (nonlinear_arith)
                    requires
                        p == 32 * (j as int) + (k as int),
                        0 <= k < 32,
                        0 <= j,
                ;
            }
            out.push(d[k]);
            k = k + 1;
        }
        assert(k == 32 || out@.len() == n);
        assert(j as int <= 32 * (j as int));
        j = j + 1;
    }
    proof {
        assert(out@ =~= keystream_of(key@, n as nat));
    }
    out
}

/// Xors two equally long byte strings.
pub fn xor_bytes(a: &[u8], b: &[u8]) -> (r: Vec<u8>)
    requires
        a@.len() == b@.len(),
    ensures
        r@ == xor_seq(a@, b@),
{
    let mut out: Vec<u8> = Vec::new();
    let mut i: usize = 0;
    while i < a.len()
        invariant
            i <= a@.len(),
            a@.len() == b@.len(),
            out@ =~= xor_seq(a@, b@).subrange(0, i as int),
        decreases a.len() - i,
    {
        out.push(a[i] ^ b[i]);
        i = i + 1;
        assert(out@ =~= xor_seq(a@, b@).subrange(0, i as int));
    }
    proof {
        assert(xor_seq(a@, b@).subrange(0, a@.len() as int) =~= xor_seq(a@, b@));
    }
    out
}

// ---------------------------------------------------------------------------
// authenticated sealing
// ---------------------------------------------------------------------------

/// The ciphertext body for `plain` under `key`.
pub open spec fn cipher_core(key: Seq<u8>, plain: Seq<u8>) -> Seq<u8> {
    xor_seq(plain, keystream_of(key, plain.len()))
}

/// A sealed block: the framed ciphertext body followed by the framed
/// authentication tag over the key and the body.
pub open spec fn seal_spec(key: Seq<u8>, plain: Seq<u8>) -> Seq<u8> {
    let c = cipher_core(key, plain);
    enc_bytes(c) + enc_bytes(digest_of(key + c))
}

/// What opening `data` under `key` yields: the plaintext when the framing
/// parses and the tag matches, nothing otherwise.
pub open spec fn open_spec(key: Seq<u8>, data: Seq<u8>) -> Option<Seq<u8>> {
    match dec_bytes_spec(data, 0) {
        None => None,
        Some((c, p)) => match dec_bytes_spec(data, p) {
            None => None,
            Some((tag, p2)) => if p2 == data.len() && tag == digest_of(key + c) {
                Some(xor_seq(c, keystream_of(key, c.len())))
            } else {
                None
            },
        },
    }
}

/// Unsealing what was sealed under the same key gives the plaintext back.
pub proof fn lemma_xor_involution(p: Seq<u8>, s: Seq<u8>)
    requires
        p.len() == s.len(),
    ensures
        xor_seq(xor_seq(p, s), s) == p,
{
    let c = xor_seq(p, s);
    assert forall|i: int| 0 <= i < p.len() implies xor_seq(c, s)[i] == p[i] by {
        let x = p[i];
        let y = s[i];
        assert(((x ^ y) ^ y) == x) by (bit_vector);
    }
    assert(xor_seq(c, s) =~= p);
}

/// Seals `plain` under `key`: xor with the keystream, then an
/// authentication tag over the key and the ciphertext body. The result
/// opens back to `plain` under the same key.
pub fn seal(key: &[u8], plain: &[u8]) -> (r: Vec<u8>)
    ensures
        r@ == seal_spec(key@, plain@),
        open_spec(key@, r@) == Some(plain@),
{
    let ks = keystream(key, plain.len());
    let c = xor_bytes(plain, ks.as_slice());
    let mut mac_in: Vec<u8> = Vec::new();
    append_bytes(&mut mac_in, key);
    append_bytes(&mut mac_in, c.as_slice());
    let tag = digest32(mac_in.as_slice());
    let mut out: Vec<u8> = Vec::new();
    push_bytes(&mut out, c.as_slice());
    push_bytes(&mut out, tag.as_slice());
    proof {
        assert(mac_in@ == key@ + c@);
        assert(out@ =~= seal_spec(key@, plain@));
        // the sealed block parses back: both frames decode in place
        let e1 = enc_bytes(c@);
        let e2 = enc_bytes(tag@);
        assert(out@.subrange(0, e1.len() as int) =~= e1);
        lemma_dec_bytes_round_trip(out@, 0, c@);
        assert(out@.subrange(e1.len() as int, out@.len() as int) =~= e2);
        lemma_dec_bytes_round_trip(out@, e1.len() as int, tag@);
        lemma_xor_involution(plain@, keystream_of(key@, plain@.len()));
    }
    out
}

/// Opens a sealed block under `key`: checks the framing and the tag, and
/// returns the plaintext; a wrong key or corrupted bytes fail the tag check.
pub fn open(key: &[u8], data: &Vec<u8>) -> (r: Result<Vec<u8>, FsError>)
    ensures
        match r {
            Ok(p) => open_spec(key@, data@) == Some(p@),
            Err(e) => e == FsError::DecryptionError && open_spec(key@, data@) is None,
        },
{
    let (c, p) = match crate::codec::read_bytes(data, 0) {
        Ok(x) => x,
        Err(_) => { return Err(FsError::DecryptionError); },
    };
    let (tag, p2) = match crate::codec::read_bytes(data, p) {
        Ok(x) => x,
        Err(_) => { return Err(FsError::DecryptionError); },
    };
    if p2 != data.len() {
        return Err(FsError::DecryptionError);
    }
    let mut mac_in: Vec<u8> = Vec::new();
    append_bytes(&mut mac_in, key);
    append_bytes(&mut mac_in, c.as_slice());
    let expect = digest32(mac_in.as_slice());
    if !bytes_eq(tag.as_slice(), expect.as_slice()) {
        return Err(FsError::DecryptionError);
    }
    let ks = keystream(key, c.len());
    let plain = xor_bytes(c.as_slice(), ks.as_slice());
    Ok(plain)
}

} // verus!

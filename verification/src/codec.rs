//! Byte-level encoding primitives used to persist the forest and the
//! directory tree: little-endian integers, length-prefixed byte strings and
//! UTF-8 text, each with a spec-level decoder and a round-trip proof.

use vstd::prelude::*;
use vstd::utf8::{decode_utf8, encode_utf8, valid_utf8};

use crate::errors::FsError;

verus! {

broadcast use vstd::utf8::encode_utf8_valid_utf8, vstd::utf8::encode_utf8_decode_utf8;

// ---------------------------------------------------------------------------
// u64, little endian
// ---------------------------------------------------------------------------

/// The eight little-endian bytes of `x`.
pub open spec fn u64_le_seq(x: u64) -> Seq<u8> {
    seq![
        (x & 0xff) as u8,
        ((x >> 8) & 0xff) as u8,
        ((x >> 16) & 0xff) as u8,
        ((x >> 24) & 0xff) as u8,
        ((x >> 32) & 0xff) as u8,
        ((x >> 40) & 0xff) as u8,
        ((x >> 48) & 0xff) as u8,
        ((x >> 56) & 0xff) as u8,
    ]
}

/// The u64 read back from eight little-endian bytes.
pub open spec fn u64_from_le(s: Seq<u8>) -> u64 {
    (s[0] as u64) | ((s[1] as u64) << 8) | ((s[2] as u64) << 16) | ((s[3] as u64) << 24)
        | ((s[4] as u64) << 32) | ((s[5] as u64) << 40) | ((s[6] as u64) << 48) | (
    (s[7] as u64) << 56)
}

/// Reading back the little-endian bytes of `x` yields `x` again.
pub proof fn lemma_u64_le_round_trip(x: u64)
    ensures
        u64_from_le(u64_le_seq(x)) == x,
{
    assert((((x & 0xff) as u8) as u64) | (((((x >> 8) & 0xff) as u8) as u64) << 8) | (((((x >> 16)
        & 0xff) as u8) as u64) << 16) | (((((x >> 24) & 0xff) as u8) as u64) << 24) | (((((x >> 32)
        & 0xff) as u8) as u64) << 32) | (((((x >> 40) & 0xff) as u8) as u64) << 40) | (((((x >> 48)
        & 0xff) as u8) as u64) << 48) | (((((x >> 56) & 0xff) as u8) as u64) << 56) == x)
        by (bit_vector);
}

/// Appends the eight little-endian bytes of `x` to `out`.
pub fn push_u64_le(out: &mut Vec<u8>, x: u64)
    ensures
        final(out)@ == old(out)@ + u64_le_seq(x),
{
    out.push((x & 0xff) as u8);
    out.push(((x >> 8) & 0xff) as u8);
    out.push(((x >> 16) & 0xff) as u8);
    out.push(((x >> 24) & 0xff) as u8);
    out.push(((x >> 32) & 0xff) as u8);
    out.push(((x >> 40) & 0xff) as u8);
    out.push(((x >> 48) & 0xff) as u8);
    out.push(((x >> 56) & 0xff) as u8);
    assert(out@ =~= old(out)@ + u64_le_seq(x));
}

/// What decoding a u64 at `pos` of `s` yields: the value and the new cursor.
pub open spec fn dec_u64_spec(s: Seq<u8>, pos: int) -> Option<(u64, int)> {
    if 0 <= pos && pos + 8 <= s.len() {
        Some((u64_from_le(s.subrange(pos, pos + 8)), pos + 8))
    } else {
        None
    }
}

/// Reads a little-endian u64 at `pos`, advancing the cursor.
pub fn read_u64_le(b: &Vec<u8>, pos: usize) -> (r: Result<(u64, usize), FsError>)
    ensures
        match r {
            Ok((x, p)) => dec_u64_spec(b@, pos as int) == Some((x, p as int)),
            Err(e) => e == FsError::DecryptionError && dec_u64_spec(b@, pos as int) is None,
        },
{
    if b.len() < 8 || pos > b.len() - 8 {
        return Err(FsError::DecryptionError);
    }
    let x: u64 = (b[pos] as u64) | ((b[pos + 1] as u64) << 8) | ((b[pos + 2] as u64) << 16) | ((b[
        pos + 3] as u64) << 24) | ((b[pos + 4] as u64) << 32) | ((b[pos + 5] as u64) << 40) | ((b[
        pos + 6] as u64) << 48) | ((b[pos + 7] as u64) << 56);
    proof {
        let sub = b@.subrange(pos as int, pos as int + 8);
        assert(sub[0] == b@[pos as int]);
        assert(sub[1] == b@[pos as int + 1]);
        assert(sub[2] == b@[pos as int + 2]);
        assert(sub[3] == b@[pos as int + 3]);
        assert(sub[4] == b@[pos as int + 4]);
        assert(sub[5] == b@[pos as int + 5]);
        assert(sub[6] == b@[pos as int + 6]);
        assert(sub[7] == b@[pos as int + 7]);
    }
    Ok((x, pos + 8))
}

// ---------------------------------------------------------------------------
// length-prefixed byte strings
// ---------------------------------------------------------------------------

/// A byte string framed by its length: eight length bytes, then the content.
pub open spec fn enc_bytes(b: Seq<u8>) -> Seq<u8> {
    u64_le_seq(b.len() as u64) + b
}

/// What decoding a framed byte string at `pos` of `s` yields.
pub open spec fn dec_bytes_spec(s: Seq<u8>, pos: int) -> Option<(Seq<u8>, int)> {
    match dec_u64_spec(s, pos) {
        None => None,
        Some((n, p)) => if p + n <= s.len() {
            Some((s.subrange(p, p + n), p + n))
        } else {
            None
        },
    }
}

/// Appends one byte at a time, so that views concatenate.
pub fn append_bytes(out: &mut Vec<u8>, src: &[u8])
    ensures
        final(out)@ == old(out)@ + src@,
{
    let mut i: usize = 0;
    while i < src.len()
        invariant
            i <= src.len(),
            out@ == old(out)@ + src@.subrange(0, i as int),
        decreases src.len() - i,
    {
        out.push(src[i]);
        i = i + 1;
        assert(out@ =~= old(out)@ + src@.subrange(0, i as int));
    }
    assert(out@ =~= old(out)@ + src@);
}

/// Appends the framed encoding of `src` to `out`.
pub fn push_bytes(out: &mut Vec<u8>, src: &[u8])
    ensures
        final(out)@ == old(out)@ + enc_bytes(src@),
{
    push_u64_le(out, src.len() as u64);
    append_bytes(out, src);
    assert(out@ =~= old(out)@ + enc_bytes(src@));
}

/// Reads a framed byte string at `pos`, advancing the cursor.
pub fn read_bytes(b: &Vec<u8>, pos: usize) -> (r: Result<(Vec<u8>, usize), FsError>)
    ensures
        match r {
            Ok((x, p)) => dec_bytes_spec(b@, pos as int) == Some((x@, p as int)),
            Err(e) => e == FsError::DecryptionError && dec_bytes_spec(b@, pos as int) is None,
        },
{
    let (n, p) = read_u64_le(b, pos)?;
    if n > (b.len() - p) as u64 {
        return Err(FsError::DecryptionError);
    }
    let n_us: usize = n as usize;
    let blen: usize = b.len();
    let mut out: Vec<u8> = Vec::new();
    let mut i: usize = 0;
    while i < n_us
        invariant
            i <= n_us,
            blen == b@.len(),
            p + n_us <= blen,
            out@ == b@.subrange(p as int, p as int + i as int),
        decreases n_us - i,
    {
        out.push(b[p + i]);
        i = i + 1;
        assert(out@ =~= b@.subrange(p as int, p as int + i as int));
    }
    Ok((out, p + n_us))
}

/// Decoding starts exactly where the encoding was laid down: if `s` carries
/// `enc_bytes(bs)` at `pos`, decoding yields `bs` and the cursor after it.
pub proof fn lemma_dec_bytes_round_trip(s: Seq<u8>, pos: int, bs: Seq<u8>)
    requires
        0 <= pos,
        pos + enc_bytes(bs).len() <= s.len(),
        s.subrange(pos, pos + enc_bytes(bs).len()) == enc_bytes(bs),
        bs.len() <= u64::MAX,
    ensures
        dec_bytes_spec(s, pos) == Some((bs, pos + enc_bytes(bs).len())),
{
    let e = enc_bytes(bs);
    let n = bs.len() as int;
    assert(e.len() == 8 + n);
    assert(s.subrange(pos, pos + 8) =~= e.subrange(0, 8));
    assert(e.subrange(0, 8) =~= u64_le_seq(bs.len() as u64));
    lemma_u64_le_round_trip(bs.len() as u64);
    assert(dec_u64_spec(s, pos) == Some((bs.len() as u64, pos + 8)));
    assert(s.subrange(pos + 8, pos + 8 + n) =~= e.subrange(8, 8 + n));
    assert(e.subrange(8, 8 + n) =~= bs);
}

// ---------------------------------------------------------------------------
// i64, encoded through its u64 bit pattern
// ---------------------------------------------------------------------------

/// A signed timestamp, framed as its two's-complement bit pattern.
pub open spec fn enc_i64(x: i64) -> Seq<u8> {
    u64_le_seq(x as u64)
}

/// What decoding a framed i64 at `pos` of `s` yields.
pub open spec fn dec_i64_spec(s: Seq<u8>, pos: int) -> Option<(i64, int)> {
    match dec_u64_spec(s, pos) {
        None => None,
        Some((x, p)) => Some((x as i64, p)),
    }
}

/// The bit pattern of an i64 reads back as the same value.
pub proof fn lemma_i64_round_trip(x: i64)
    ensures
        ((x as u64) as i64) == x,
{
    assert(((x as u64) as i64) == x) by (bit_vector);
}

/// Appends the framed encoding of `x` to `out`.
pub fn push_i64(out: &mut Vec<u8>, x: i64)
    ensures
        final(out)@ == old(out)@ + enc_i64(x),
{
    push_u64_le(out, x as u64);
}

/// Reads a framed i64 at `pos`, advancing the cursor.
pub fn read_i64(b: &Vec<u8>, pos: usize) -> (r: Result<(i64, usize), FsError>)
    ensures
        match r {
            Ok((x, p)) => dec_i64_spec(b@, pos as int) == Some((x, p as int)),
            Err(e) => e == FsError::DecryptionError && dec_i64_spec(b@, pos as int) is None,
        },
{
    let (x, p) = read_u64_le(b, pos)?;
    Ok((x as i64, p))
}

/// If `s` carries `enc_i64(x)` at `pos`, decoding yields `x` back.
pub proof fn lemma_dec_i64_round_trip(s: Seq<u8>, pos: int, x: i64)
    requires
        0 <= pos,
        pos + 8 <= s.len(),
        s.subrange(pos, pos + 8) == enc_i64(x),
    ensures
        dec_i64_spec(s, pos) == Some((x, pos + 8)),
{
    lemma_u64_le_round_trip(x as u64);
    lemma_i64_round_trip(x);
}

// ---------------------------------------------------------------------------
// UTF-8 text
// ---------------------------------------------------------------------------

/// Text framed as its UTF-8 bytes.
pub open spec fn enc_str(s: Seq<char>) -> Seq<u8> {
    enc_bytes(encode_utf8(s))
}

/// What decoding framed text at `pos` of `s` yields.
pub open spec fn dec_str_spec(s: Seq<u8>, pos: int) -> Option<(Seq<char>, int)> {
    match dec_bytes_spec(s, pos) {
        None => None,
        Some((bs, p)) => if valid_utf8(bs) {
            Some((decode_utf8(bs), p))
        } else {
            None
        },
    }
}

/// Rebuilds text from UTF-8 bytes.
///
/// Relies on std's `String::from_utf8`: it returns the string whose UTF-8
/// encoding is exactly the given bytes, and an error when the bytes are not
/// valid UTF-8.
#[verifier::external_body]
pub fn string_from_utf8(v: Vec<u8>) -> (r: Result<String, FsError>)
    ensures
        match r {
            Ok(s) => valid_utf8(v@) && s@ == decode_utf8(v@),
            Err(e) => e == FsError::DecryptionError && !valid_utf8(v@),
        },
{
    match String::from_utf8(v) {
        Ok(s) => Ok(s),
        Err(_) => Err(FsError::DecryptionError),
    }
}

/// Appends the framed encoding of `s` to `out`.
pub fn push_str_enc(out: &mut Vec<u8>, s: &str)
    ensures
        final(out)@ == old(out)@ + enc_str(s@),
        encode_utf8(s@).len() <= usize::MAX,
{
    let bytes = s.as_bytes_vec();
    let n = bytes.len();
    proof {
        assert(encode_utf8(s@).len() == n as int);
    }
    push_bytes(out, bytes.as_slice());
}

/// Reads framed text at `pos`, advancing the cursor.
pub fn read_str(b: &Vec<u8>, pos: usize) -> (r: Result<(String, usize), FsError>)
    ensures
        match r {
            Ok((x, p)) => dec_str_spec(b@, pos as int) == Some((x@, p as int)),
            Err(e) => e == FsError::DecryptionError && dec_str_spec(b@, pos as int) is None,
        },
{
    let (bs, p) = read_bytes(b, pos)?;
    let s = string_from_utf8(bs)?;
    Ok((s, p))
}

/// If `s` carries `enc_str(t)` at `pos`, decoding yields `t` back.
pub proof fn lemma_dec_str_round_trip(s: Seq<u8>, pos: int, t: Seq<char>)
    requires
        0 <= pos,
        pos + enc_str(t).len() <= s.len(),
        s.subrange(pos, pos + enc_str(t).len()) == enc_str(t),
        encode_utf8(t).len() <= u64::MAX,
    ensures
        dec_str_spec(s, pos) == Some((t, pos + enc_str(t).len())),
{
    lemma_dec_bytes_round_trip(s, pos, encode_utf8(t));
}

// ---------------------------------------------------------------------------
// small helpers over raw bytes
// ---------------------------------------------------------------------------

/// Byte-for-byte equality of two slices.
pub fn bytes_eq(a: &[u8], b: &[u8]) -> (r: bool)
    ensures
        r == (a@ == b@),
{
    if a.len() != b.len() {
        assert(a@ != b@);
        return false;
    }
    let mut i: usize = 0;
    while i < a.len()
        invariant
            i <= a.len(),
            a@.len() == b@.len(),
            forall|j: int| 0 <= j < i ==> a@[j] == b@[j],
        decreases a.len() - i,
    {
        if a[i] != b[i] {
            return false;
        }
        i = i + 1;
    }
    proof {
        assert(a@ =~= b@);
    }
    true
}

/// Strict lexicographic order on byte strings, shorter prefixes first.
pub open spec fn lex_lt(a: Seq<u8>, b: Seq<u8>) -> bool
    decreases a.len(),
{
    if b.len() == 0 {
        false
    } else if a.len() == 0 {
        true
    } else if a[0] != b[0] {
        a[0] < b[0]
    } else {
        lex_lt(a.drop_first(), b.drop_first())
    }
}

/// Decides `lex_lt` on two slices.
pub fn bytes_lt(a: &[u8], b: &[u8]) -> (r: bool)
    ensures
        r == lex_lt(a@, b@),
{
    let mut i: usize = 0;
    proof {
        assert(a@.skip(0) =~= a@);
        assert(b@.skip(0) =~= b@);
    }
    loop
        invariant
            i <= a@.len(),
            i <= b@.len(),
            forall|j: int| 0 <= j < i ==> a@[j] == b@[j],
            lex_lt(a@, b@) == lex_lt(a@.skip(i as int), b@.skip(i as int)),
        decreases a@.len() - i,
    {
        if i == b.len() {
            assert(b@.skip(i as int).len() == 0);
            return false;
        }
        if i == a.len() {
            assert(a@.skip(i as int).len() == 0 && b@.skip(i as int).len() > 0);
            return true;
        }
        let x = a[i];
        let y = b[i];
        proof {
            let sa = a@.skip(i as int);
            let sb = b@.skip(i as int);
            assert(sa[0] == a@[i as int] && sb[0] == b@[i as int]);
            assert(sa.drop_first() =~= a@.skip(i as int + 1));
            assert(sb.drop_first() =~= b@.skip(i as int + 1));
        }
        if x != y {
            return x < y;
        }
        i = i + 1;
    }
}

} // verus!

//! Key derivation and initialization vectors.

use crate::cipher::{sha3_512, spec_sha3_512};
use rand::rngs::StdRng;
use rand::RngCore;
use vstd::prelude::*;

verus! {

/// A secret shared between the sender and one recipient.
#[derive(Clone, Copy, Debug, PartialEq, Eq)]
pub struct SharedSecret(pub [u8; 32]);

/// The symmetric keys derived from a shared secret.
#[derive(Clone, Copy, Debug, PartialEq, Eq)]
pub struct KeySet {
    /// The key of the authenticated cipher.
    pub aes_key: [u8; 16],
    /// A key kept for schemes that authenticate separately.
    pub mac_key: [u8; 16],
}

/// The cipher key derived from a secret: the first sixteen bytes of the first half
/// of its SHA3-512 digest.
pub open spec fn spec_aes_key(secret: Seq<u8>) -> Seq<u8> {
    spec_sha3_512(secret).subrange(0, 16)
}

/// The MAC key derived from a secret: the first sixteen bytes of the second half
/// of its SHA3-512 digest.
pub open spec fn spec_mac_key(secret: Seq<u8>) -> Seq<u8> {
    spec_sha3_512(secret).subrange(32, 48)
}

/// Copies sixteen bytes of `src`, starting at `from`.
pub fn take16(src: &[u8], from: usize) -> (out: [u8; 16])
    requires
        from + 16 <= src@.len(),
    ensures
        out@ == src@.subrange(from as int, from + 16),
{
    let len = src.len();
    let mut out = [0u8; 16];
    let mut i: usize = 0;
    while i < 16
        invariant
            i <= 16,
            from + 16 <= src@.len(),
            src@.len() == len,
            forall|j: int| 0 <= j < i ==> out@[j] == src@[from + j],
        decreases 16 - i,
    {
        out[i] = src[from + i];
        i += 1;
    }
    assert(out@ =~= src@.subrange(from as int, from + 16));
    out
}

/// Copies the first ten bytes of `src`.
pub fn take10(src: &[u8]) -> (out: [u8; 10])
    requires
        10 <= src@.len(),
    ensures
        out@ == src@.subrange(0, 10),
{
    let mut out = [0u8; 10];
    let mut i: usize = 0;
    while i < 10
        invariant
            i <= 10,
            10 <= src@.len(),
            forall|j: int| 0 <= j < i ==> out@[j] == src@[j],
        decreases 10 - i,
    {
        out[i] = src[i];
        i += 1;
    }
    assert(out@ =~= src@.subrange(0, 10));
    out
}

/// Derives the key set of a shared secret from its SHA3-512 digest.
pub fn derive_keys(secret: &SharedSecret) -> (keys: KeySet)
    ensures
        keys.aes_key@ == spec_aes_key(secret.0@),
        keys.mac_key@ == spec_mac_key(secret.0@),
{
    let digest = sha3_512(secret.0.as_slice());
    let aes_key = take16(digest.as_slice(), 0);
    let mac_key = take16(digest.as_slice(), 32);
    KeySet { aes_key, mac_key }
}

/// Calls `RngCore::fill_bytes` on a fresh buffer of sixteen bytes. Nothing is
/// claimed of the bytes: they are random.
#[verifier::external_body]
pub(crate) fn generate_iv(rng: &mut StdRng) -> [u8; 16] {
    let mut iv = [0u8; 16];
    rng.fill_bytes(&mut iv);
    iv
}

/// Compares two texts.
pub fn str_eq(a: &str, b: &str) -> (eq: bool)
    ensures
        eq == (a@ == b@),
{
    let x = a.as_bytes();
    let y = b.as_bytes();
    if x.len() != y.len() {
        return false;
    }
    let mut i: usize = 0;
    while i < x.len()
        invariant
            i <= x@.len(),
            x@.len() == y@.len(),
            x@ == vstd::utf8::encode_utf8(a@),
            y@ == vstd::utf8::encode_utf8(b@),
            forall|j: int| 0 <= j < i ==> x@[j] == y@[j],
        decreases x@.len() - i,
    {
        if x[i] != y[i] {
            return false;
        }
        i += 1;
    }
    proof {
        assert(x@ =~= y@);
        vstd::utf8::encode_utf8_decode_utf8(a@);
        vstd::utf8::encode_utf8_decode_utf8(b@);
    }
    true
}

/// Whether `a` comes before `b` in the order of byte strings: byte by byte, a
/// proper prefix before what it opens.
pub open spec fn spec_lex_lt(a: Seq<u8>, b: Seq<u8>) -> bool
    decreases a.len(),
{
    if b.len() == 0 {
        false
    } else if a.len() == 0 {
        true
    } else if a[0] < b[0] {
        true
    } else if a[0] > b[0] {
        false
    } else {
        spec_lex_lt(a.drop_first(), b.drop_first())
    }
}

/// Whether the text `a` comes before the text `b`: the order of their UTF-8
/// bytes, which is the order in which an ordered map of strings keeps its keys.
pub open spec fn spec_text_lt(a: Seq<char>, b: Seq<char>) -> bool {
    spec_lex_lt(vstd::utf8::encode_utf8(a), vstd::utf8::encode_utf8(b))
}

/// Reports whether the text `a` comes before the text `b`.
pub fn str_lt(a: &str, b: &str) -> (lt: bool)
    ensures
        lt == spec_text_lt(a@, b@),
{
    let x = a.as_bytes();
    let y = b.as_bytes();
    let mut i: usize = 0;
    proof {
        assert(x@.skip(0) =~= x@);
        assert(y@.skip(0) =~= y@);
    }
    while i < x.len() && i < y.len()
        invariant
            i <= x@.len(),
            i <= y@.len(),
            x@ == vstd::utf8::encode_utf8(a@),
            y@ == vstd::utf8::encode_utf8(b@),
            spec_lex_lt(x@, y@) == spec_lex_lt(x@.skip(i as int), y@.skip(i as int)),
        decreases x@.len() - i,
    {
        proof {
            assert(x@.skip(i as int).len() > 0 && y@.skip(i as int).len() > 0);
            assert(x@.skip(i as int)[0] == x@[i as int]);
            assert(y@.skip(i as int)[0] == y@[i as int]);
            assert(x@.skip(i as int).drop_first() =~= x@.skip(i + 1));
            assert(y@.skip(i as int).drop_first() =~= y@.skip(i + 1));
        }
        if x[i] < y[i] {
            return true;
        }
        if x[i] > y[i] {
            return false;
        }
        i += 1;
    }
    proof {
        assert(x@.skip(i as int).len() == x@.len() - i);
        assert(y@.skip(i as int).len() == y@.len() - i);
    }
    i < y.len()
}

} // verus!

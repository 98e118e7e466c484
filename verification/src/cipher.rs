//! The symmetric primitives: AES-128-GCM and SHA3-512.
//!
//! Both are computed by outside code. What they compute is named here, not stated;
//! the one fact claimed of the cipher is that opening undoes sealing.

use aes_gcm::aead::Aead;
use aes_gcm::Aes128Gcm;
use aes_gcm::KeyInit;
use digest::Digest;
use sha3::Sha3_512;
use vstd::prelude::*;

verus! {

/// The ciphertext, tag included, that AES-128-GCM gives for a plaintext under a key
/// and a nonce, with no associated data.
pub uninterp spec fn spec_aes128gcm_seal(key: Seq<u8>, nonce: Seq<u8>, plaintext: Seq<u8>) -> Seq<
    u8,
>;

/// The plaintext that AES-128-GCM recovers from a ciphertext under a key and a
/// nonce, or `None` where the tag does not verify.
pub uninterp spec fn spec_aes128gcm_open(key: Seq<u8>, nonce: Seq<u8>, ciphertext: Seq<u8>) -> Option<
    Seq<u8>,
>;

/// The SHA3-512 digest of a byte string.
pub uninterp spec fn spec_sha3_512(data: Seq<u8>) -> Seq<u8>;

/// The longest plaintext, in bytes, that the cipher accepts in one call.
pub const MAX_PLAINTEXT: u64 = 0x10_0000_0000;

/// Calls `Aes128Gcm::encrypt` with an empty associated data. The result is the
/// named ciphertext; it is sixteen bytes longer than the plaintext, and the
/// cipher opens it to the plaintext again under the same key and nonce.
#[verifier::external_body]
pub(crate) fn aes128gcm_seal(key: &[u8; 16], nonce: &[u8; 12], plaintext: &[u8]) -> (ciphertext:
    Vec<u8>)
    requires
        plaintext@.len() <= MAX_PLAINTEXT,
    ensures
        ciphertext@ == spec_aes128gcm_seal(key@, nonce@, plaintext@),
        ciphertext@.len() == plaintext@.len() + 16,
        spec_aes128gcm_open(key@, nonce@, ciphertext@) == Some(plaintext@),
{
    Aes128Gcm::new(key.into()).encrypt(nonce.into(), plaintext).unwrap()
}

/// Calls `Aes128Gcm::decrypt` with an empty associated data. The result is the
/// named plaintext, sixteen bytes shorter than the ciphertext, or `None` where the
/// cipher refuses.
#[verifier::external_body]
pub(crate) fn aes128gcm_open(key: &[u8; 16], nonce: &[u8; 12], ciphertext: &[u8]) -> (plaintext:
    Option<Vec<u8>>)
    ensures
        match plaintext {
            Some(p) => spec_aes128gcm_open(key@, nonce@, ciphertext@) == Some(p@) && p@.len() + 16
                == ciphertext@.len(),
            None => spec_aes128gcm_open(key@, nonce@, ciphertext@) is None,
        },
{
    Aes128Gcm::new(key.into()).decrypt(nonce.into(), ciphertext).ok()
}

/// Calls `Sha3_512::digest`: the result is the named digest, sixty-four bytes long.
#[verifier::external_body]
pub(crate) fn sha3_512(data: &[u8]) -> (digest: [u8; 64])
    ensures
        digest@ == spec_sha3_512(data@),
{
    Sha3_512::digest(data).into()
}

} // verus!

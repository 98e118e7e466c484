//! Key artifacts and their wire encoding.
//!
//! A master public key and a user secret key travel as padded base64 of their
//! fixed-length compressed bytes. The base64 is computed by a constant-time
//! codec, and whether decoded bytes are a key is decided by the scheme, which
//! answers with one validity bit; only that bit is branched on.

use crate::constants::{PK_BYTES, SK_BYTES, USK_BYTES};
use crate::error::Error;
use crate::kem::{
    pk_bytes_valid,
    sk_bytes_valid,
    spec_pk_valid,
    spec_sk_valid,
    spec_usk_valid,
    usk_bytes_valid,
};
use base64ct::Base64;
use base64ct::Encoding;
use vstd::prelude::*;

verus! {

/// The padded base64 text of a byte string.
pub uninterp spec fn spec_base64_encode(bytes: Seq<u8>) -> Seq<char>;

/// The bytes that a padded base64 text stands for, if it is well formed.
pub uninterp spec fn spec_base64_decode(text: Seq<char>) -> Option<Seq<u8>>;

/// Length of the padded base64 text that encodes `raw_len` bytes.
pub open spec fn spec_b64len(raw_len: int) -> int {
    if raw_len <= 0 {
        0
    } else {
        (((raw_len - 1) / 3) + 1) * 4
    }
}

/// Computes the length of the padded base64 encoding of `raw_len` raw bytes, of
/// which there is at least one.
pub fn b64len(raw_len: usize) -> (len: usize)
    requires
        raw_len >= 1,
        spec_b64len(raw_len as int) <= usize::MAX,
    ensures
        len == spec_b64len(raw_len as int),
{
    (((raw_len - 1) / 3) + 1) * 4
}

/// Calls `Base64::encode` with a zeroed buffer of `capacity` bytes. The codec
/// refuses only a buffer shorter than the encoding; otherwise the result is the
/// named text, and the codec decodes it to `bytes` again.
#[verifier::external_body]
fn base64_encode(bytes: &[u8], capacity: usize) -> (text: Option<String>)
    ensures
        match text {
            Some(t) => t@ == spec_base64_encode(bytes@) && spec_base64_decode(t@) == Some(bytes@),
            None => capacity < spec_b64len(bytes@.len() as int),
        },
{
    let mut buf = vec![0u8; capacity];
    Base64::encode(bytes, &mut buf).ok().map(|text| text.to_owned())
}

/// Calls `Base64::decode_vec`: the named bytes, or `None` where the codec refuses
/// the text.
#[verifier::external_body]
fn base64_decode(text: &str) -> (bytes: Option<Vec<u8>>)
    ensures
        match bytes {
            Some(b) => spec_base64_decode(text@) == Some(b@),
            None => spec_base64_decode(text@) is None,
        },
{
    Base64::decode_vec(text).ok()
}

/// Copies `src` into an array of its length.
fn to_array<const N: usize>(src: &[u8]) -> (out: [u8; N])
    requires
        src@.len() == N,
    ensures
        out@ == src@,
{
    let mut out = [0u8; N];
    let mut i: usize = 0;
    while i < N
        invariant
            i <= N,
            src@.len() == N,
            forall|j: int| 0 <= j < i ==> out@[j] == src@[j],
        decreases N - i,
    {
        out[i] = src[i];
        i += 1;
    }
    assert(out@ =~= src@);
    out
}

/// A master public key, as generated by the private key generator.
#[derive(Debug, Clone, Copy)]
pub struct PublicKey {
    bytes: [u8; 672],
}

/// A master secret key, from which user secret keys are extracted.
#[derive(Debug, Clone, Copy)]
pub struct SecretKey {
    bytes: [u8; 512],
}

/// A user secret key, issued for one identity.
#[derive(Debug, Clone, Copy)]
pub struct UserSecretKey {
    bytes: [u8; 576],
}

/// The key pair of a private key generator.
#[derive(Debug, Clone, Copy)]
pub struct MasterKeyPair {
    pub pk: PublicKey,
    pub sk: SecretKey,
}

impl View for PublicKey {
    type V = Seq<u8>;

    closed spec fn view(&self) -> Seq<u8> {
        self.bytes@
    }
}

impl View for SecretKey {
    type V = Seq<u8>;

    closed spec fn view(&self) -> Seq<u8> {
        self.bytes@
    }
}

impl View for UserSecretKey {
    type V = Seq<u8>;

    closed spec fn view(&self) -> Seq<u8> {
        self.bytes@
    }
}

impl PublicKey {
    #[verifier::type_invariant]
    spec fn inv(self) -> bool {
        spec_pk_valid(self.bytes@)
    }

    /// The key whose compressed form is `bytes`, which the scheme is known to
    /// accept.
    pub(crate) fn from_valid(bytes: [u8; 672]) -> (pk: PublicKey)
        requires
            spec_pk_valid(bytes@),
        ensures
            pk@ == bytes@,
    {
        PublicKey { bytes }
    }

    /// The key whose compressed form is `bytes`. It fails with `FormatViolation`
    /// exactly when the length is not 672 or the scheme refuses the bytes.
    pub fn from_bytes(bytes: &[u8]) -> (res: Result<PublicKey, Error>)
        ensures
            match res {
                Ok(pk) => pk@ == bytes@ && bytes@.len() == PK_BYTES && spec_pk_valid(bytes@),
                Err(e) => e == Error::FormatViolation && !(bytes@.len() == PK_BYTES && spec_pk_valid(
                    bytes@,
                )),
            },
    {
        if bytes.len() != PK_BYTES {
            return Err(Error::FormatViolation);
        }
        let arr: [u8; 672] = to_array(bytes);
        if pk_bytes_valid(&arr) {
            Ok(PublicKey { bytes: arr })
        } else {
            Err(Error::FormatViolation)
        }
    }

    /// The compressed form of the key.
    pub fn to_bytes(&self) -> (bytes: [u8; 672])
        ensures
            bytes@ == self@,
            spec_pk_valid(bytes@),
    {
        proof {
            use_type_invariant(self);
        }
        self.bytes
    }
}

impl SecretKey {
    #[verifier::type_invariant]
    spec fn inv(self) -> bool {
        spec_sk_valid(self.bytes@)
    }

    /// The key whose compressed form is `bytes`, which the scheme is known to
    /// accept.
    pub(crate) fn from_valid(bytes: [u8; 512]) -> (sk: SecretKey)
        requires
            spec_sk_valid(bytes@),
        ensures
            sk@ == bytes@,
    {
        SecretKey { bytes }
    }

    /// The key whose compressed form is `bytes`. It fails with `FormatViolation`
    /// exactly when the length is not 512 or the scheme refuses the bytes.
    pub fn from_bytes(bytes: &[u8]) -> (res: Result<SecretKey, Error>)
        ensures
            match res {
                Ok(sk) => sk@ == bytes@ && bytes@.len() == SK_BYTES && spec_sk_valid(bytes@),
                Err(e) => e == Error::FormatViolation && !(bytes@.len() == SK_BYTES && spec_sk_valid(
                    bytes@,
                )),
            },
    {
        if bytes.len() != SK_BYTES {
            return Err(Error::FormatViolation);
        }
        let arr: [u8; 512] = to_array(bytes);
        if sk_bytes_valid(&arr) {
            Ok(SecretKey { bytes: arr })
        } else {
            Err(Error::FormatViolation)
        }
    }

    /// The compressed form of the key.
    pub fn to_bytes(&self) -> (bytes: [u8; 512])
        ensures
            bytes@ == self@,
            spec_sk_valid(bytes@),
    {
        proof {
            use_type_invariant(self);
        }
        self.bytes
    }
}

impl UserSecretKey {
    #[verifier::type_invariant]
    spec fn inv(self) -> bool {
        spec_usk_valid(self.bytes@)
    }

    /// The key whose compressed form is `bytes`, which the scheme is known to
    /// accept.
    pub(crate) fn from_valid(bytes: [u8; 576]) -> (usk: UserSecretKey)
        requires
            spec_usk_valid(bytes@),
        ensures
            usk@ == bytes@,
    {
        UserSecretKey { bytes }
    }

    /// The key whose compressed form is `bytes`. It fails with `FormatViolation`
    /// exactly when the length is not 576 or the scheme refuses the bytes.
    pub fn from_bytes(bytes: &[u8]) -> (res: Result<UserSecretKey, Error>)
        ensures
            match res {
                Ok(usk) => usk@ == bytes@ && bytes@.len() == USK_BYTES && spec_usk_valid(bytes@),
                Err(e) => e == Error::FormatViolation && !(bytes@.len() == USK_BYTES && spec_usk_valid(
                    bytes@,
                )),
            },
    {
        if bytes.len() != USK_BYTES {
            return Err(Error::FormatViolation);
        }
        let arr: [u8; 576] = to_array(bytes);
        if usk_bytes_valid(&arr) {
            Ok(UserSecretKey { bytes: arr })
        } else {
            Err(Error::FormatViolation)
        }
    }

    /// The compressed form of the key.
    pub fn to_bytes(&self) -> (bytes: [u8; 576])
        ensures
            bytes@ == self@,
            spec_usk_valid(bytes@),
    {
        proof {
            use_type_invariant(self);
        }
        self.bytes
    }
}

/// The public key that a text decodes to: the text must be well-formed base64 of
/// 672 bytes that the scheme accepts.
pub open spec fn spec_decode_pk(text: Seq<char>) -> Option<Seq<u8>> {
    match spec_base64_decode(text) {
        Some(bytes) => if bytes.len() == PK_BYTES && spec_pk_valid(bytes) {
            Some(bytes)
        } else {
            None
        },
        None => None,
    }
}

/// The user secret key that a text decodes to: the text must be well-formed
/// base64 of 576 bytes that the scheme accepts.
pub open spec fn spec_decode_usk(text: Seq<char>) -> Option<Seq<u8>> {
    match spec_base64_decode(text) {
        Some(bytes) => if bytes.len() == USK_BYTES && spec_usk_valid(bytes) {
            Some(bytes)
        } else {
            None
        },
        None => None,
    }
}

/// Encodes a public key as padded base64. Decoding the text gives the key back.
pub fn encode_pk(pk: &PublicKey) -> (text: String)
    ensures
        text@ == spec_base64_encode(pk@),
        spec_decode_pk(text@) == Some(pk@),
{
    let bytes = pk.to_bytes();
    let capacity = b64len(PK_BYTES);
    match base64_encode(bytes.as_slice(), capacity) {
        Some(text) => text,
        // the buffer is as long as the text, so the codec does not refuse
        None => vstd::pervasive::unreached(),
    }
}

/// Decodes a public key from padded base64. It fails with `FormatViolation`
/// exactly when the text is not the encoding of a key.
pub fn decode_pk(text: &str) -> (res: Result<PublicKey, Error>)
    ensures
        match res {
            Ok(pk) => spec_decode_pk(text@) == Some(pk@),
            Err(e) => e == Error::FormatViolation && spec_decode_pk(text@) is None,
        },
{
    match base64_decode(text) {
        None => Err(Error::FormatViolation),
        Some(bytes) => PublicKey::from_bytes(bytes.as_slice()),
    }
}

/// Encodes a user secret key as padded base64. Decoding the text gives the key
/// back.
pub fn encode_usk(usk: &UserSecretKey) -> (text: String)
    ensures
        text@ == spec_base64_encode(usk@),
        spec_decode_usk(text@) == Some(usk@),
{
    let bytes = usk.to_bytes();
    let capacity = b64len(USK_BYTES);
    match base64_encode(bytes.as_slice(), capacity) {
        Some(text) => text,
        // the buffer is as long as the text, so the codec does not refuse
        None => vstd::pervasive::unreached(),
    }
}

/// Decodes a user secret key from padded base64. It fails with `FormatViolation`
/// exactly when the text is not the encoding of a key. Whether the decoded bytes
/// are a key is decided by the scheme in constant time.
pub fn decode_usk(text: &str) -> (res: Result<UserSecretKey, Error>)
    ensures
        match res {
            Ok(usk) => spec_decode_usk(text@) == Some(usk@),
            Err(e) => e == Error::FormatViolation && spec_decode_usk(text@) is None,
        },
{
    match base64_decode(text) {
        None => Err(Error::FormatViolation),
        Some(bytes) => UserSecretKey::from_bytes(bytes.as_slice()),
    }
}

} // verus!

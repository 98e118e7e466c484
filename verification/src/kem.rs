//! The identity-based key encapsulation mechanism, reached through byte encodings.
//!
//! Every key and ciphertext is held in its compressed byte form. The functions here
//! hand those bytes to the CGW-KV scheme and return bytes again; what the scheme
//! computes is not proved, only named.

use ibe::kem::cgw_kv::CGWKV;
use ibe::kem::mkem::MultiRecipient;
use ibe::kem::IBKEM;
use ibe::Compress;
use ibe::Derive;
use rand::rngs::StdRng;
use rand::SeedableRng;
use vstd::prelude::*;

verus! {

/// The random number generator that feeds key generation and encapsulation.
#[verifier::external_type_specification]
#[verifier::external_body]
pub struct ExStdRng(StdRng);

/// The identity that the scheme derives from a byte string.
pub uninterp spec fn spec_identity_hash(bytes: Seq<u8>) -> Seq<u8>;

/// Whether the bytes decompress to a master public key.
pub uninterp spec fn spec_pk_valid(bytes: Seq<u8>) -> bool;

/// Whether the bytes decompress to a master secret key.
pub uninterp spec fn spec_sk_valid(bytes: Seq<u8>) -> bool;

/// Whether the bytes decompress to a user secret key.
pub uninterp spec fn spec_usk_valid(bytes: Seq<u8>) -> bool;

/// Whether the bytes decompress to a multi-recipient ciphertext.
pub uninterp spec fn spec_ct_valid(bytes: Seq<u8>) -> bool;

/// The shared secret that a user secret key recovers from a ciphertext, if any.
pub uninterp spec fn spec_multi_decaps(usk: Seq<u8>, ct: Seq<u8>) -> Option<Seq<u8>>;

/// Calls `Identity::derive` of the scheme: the result is the identity it derives
/// from `bytes`, which this library only names.
#[verifier::external_body]
pub(crate) fn identity_hash(bytes: &[u8]) -> (id: [u8; 64])
    ensures
        id@ == spec_identity_hash(bytes@),
{
    <CGWKV as IBKEM>::Id::derive(bytes).0
}

/// Calls `PublicKey::from_bytes` and reports whether it accepted the bytes.
#[verifier::external_body]
pub(crate) fn pk_bytes_valid(bytes: &[u8; 672]) -> (valid: bool)
    ensures
        valid == spec_pk_valid(bytes@),
{
    bool::from(<CGWKV as IBKEM>::Pk::from_bytes(bytes).is_some())
}

/// Calls `SecretKey::from_bytes` and reports whether it accepted the bytes.
#[verifier::external_body]
pub(crate) fn sk_bytes_valid(bytes: &[u8; 512]) -> (valid: bool)
    ensures
        valid == spec_sk_valid(bytes@),
{
    bool::from(<CGWKV as IBKEM>::Sk::from_bytes(bytes).is_some())
}

/// Calls `UserSecretKey::from_bytes` and reports whether it accepted the bytes.
/// The scheme computes the answer without branching on the bytes.
#[verifier::external_body]
pub(crate) fn usk_bytes_valid(bytes: &[u8; 576]) -> (valid: bool)
    ensures
        valid == spec_usk_valid(bytes@),
{
    bool::from(<CGWKV as IBKEM>::Usk::from_bytes(bytes).is_some())
}

/// Calls `Ciphertext::from_bytes` and reports whether it accepted the bytes.
#[verifier::external_body]
pub(crate) fn ct_bytes_valid(bytes: &[u8; 284]) -> (valid: bool)
    ensures
        valid == spec_ct_valid(bytes@),
{
    bool::from(ibe::kem::mkem::Ciphertext::<CGWKV>::from_bytes(bytes).is_some())
}

/// Calls `CGWKV::setup` and compresses both keys. The keys are random; the
/// contract claims only that their compressed forms decompress again.
#[verifier::external_body]
pub(crate) fn kem_setup(rng: &mut StdRng) -> (keys: ([u8; 672], [u8; 512]))
    ensures
        spec_pk_valid(keys.0@),
        spec_sk_valid(keys.1@),
{
    let (pk, sk) = CGWKV::setup(rng);
    (pk.to_bytes(), sk.to_bytes())
}

/// Calls `CGWKV::extract_usk` for the identity `id`. The key is randomised; the
/// contract claims only that its compressed form decompresses again.
#[verifier::external_body]
pub(crate) fn kem_extract_usk(sk: &[u8; 512], id: &[u8; 64], rng: &mut StdRng) -> (usk: [u8; 576])
    requires
        spec_sk_valid(sk@),
    ensures
        spec_usk_valid(usk@),
{
    let sk = <CGWKV as IBKEM>::Sk::from_bytes(sk).unwrap();
    let mut kid = <CGWKV as IBKEM>::Id::default();
    kid.0 = *id;
    CGWKV::extract_usk(None, &sk, &kid, rng).to_bytes()
}

/// Calls `CGWKV::multi_encaps` for the identities `ids` and compresses each
/// ciphertext. Secret and ciphertexts are random; the contract claims only that
/// one ciphertext comes back per identity.
#[verifier::external_body]
pub(crate) fn kem_multi_encaps(pk: &[u8; 672], ids: &Vec<[u8; 64]>, rng: &mut StdRng) -> (out: (
    Vec<[u8; 284]>,
    [u8; 32],
))
    requires
        spec_pk_valid(pk@),
    ensures
        out.0@.len() == ids@.len(),
{
    let pk = <CGWKV as IBKEM>::Pk::from_bytes(pk).unwrap();
    let mut kids = vec![<CGWKV as IBKEM>::Id::default(); ids.len()];
    kids.iter_mut().zip(ids.iter()).for_each(|(kid, id)| kid.0 = *id);
    let (cts, ss) = CGWKV::multi_encaps(&pk, &kids, rng);
    (cts.map(|ct| ct.to_bytes()).collect(), ss.0)
}

/// Calls `CGWKV::multi_decaps` without a public key. The result is a function of
/// key and ciphertext, which this library only names; a refusal becomes `None`.
#[verifier::external_body]
pub(crate) fn kem_multi_decaps(usk: &[u8; 576], ct: &[u8; 284]) -> (ss: Option<[u8; 32]>)
    requires
        spec_usk_valid(usk@),
        spec_ct_valid(ct@),
    ensures
        match ss {
            Some(bytes) => spec_multi_decaps(usk@, ct@) == Some(bytes@),
            None => spec_multi_decaps(usk@, ct@) is None,
        },
{
    let usk = <CGWKV as IBKEM>::Usk::from_bytes(usk).unwrap();
    let ct = ibe::kem::mkem::Ciphertext::<CGWKV>::from_bytes(ct).unwrap();
    CGWKV::multi_decaps(None, &usk, &ct).ok().map(|ss| ss.0)
}

/// Calls `StdRng::seed_from_u64`: a generator whose stream is fixed by `seed`.
#[verifier::external_body]
pub(crate) fn rng_from_seed(seed: u64) -> StdRng {
    StdRng::seed_from_u64(seed)
}

} // verus!

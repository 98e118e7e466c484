use ibe::kem::cgw_kv::CGWKV;
use ibe::kem::IBKEM;
use ibe::{Compress, Derive};
use irmaseal::artifacts::{
    b64len, decode_pk, decode_usk, encode_pk, encode_usk, PublicKey, SecretKey, UserSecretKey,
};
use irmaseal::error::Error;
use irmaseal::test_common::TestSetup;
use rand::rngs::StdRng;
use rand::SeedableRng;

#[test]
fn b64len_values() {
    assert_eq!(b64len(1), 4);
    assert_eq!(b64len(2), 4);
    assert_eq!(b64len(3), 4);
    assert_eq!(b64len(4), 8);
    assert_eq!(b64len(672), 896);
    assert_eq!(b64len(576), 768);
}

#[test]
fn test_eq_enc_dec() {
    let mut rng = rand::thread_rng();
    let (mpk, msk) = ibe::kem::cgw_kv::CGWKV::setup(&mut rng);
    let wrapped_pk = PublicKey::from_bytes(&mpk.to_bytes()).unwrap();

    let pk_encoded = encode_pk(&wrapped_pk);
    let pk_decoded = decode_pk(&pk_encoded).unwrap();

    assert_eq!(&mpk.to_bytes(), &pk_decoded.to_bytes());
    assert_eq!(&wrapped_pk.to_bytes(), &pk_decoded.to_bytes());

    let id = <CGWKV as IBKEM>::Id::derive_str("test");
    let usk = CGWKV::extract_usk(Some(&mpk), &msk, &id, &mut rng);
    let wrapped_usk = UserSecretKey::from_bytes(&usk.to_bytes()).unwrap();

    let usk_encoded = encode_usk(&wrapped_usk);
    let usk_decoded = decode_usk(&usk_encoded).unwrap();

    assert_eq!(&usk.to_bytes(), &usk_decoded.to_bytes());
    assert_eq!(&wrapped_usk.to_bytes(), &usk_decoded.to_bytes());
}

#[test]
fn encoded_keys_are_padded_base64_of_the_fixed_length() {
    let setup = TestSetup::default();
    let pk = encode_pk(&setup.mpk);
    assert_eq!(pk.len(), 896);
    assert_eq!(pk.len(), b64len(672));
    assert!(pk.bytes().all(|b| b.is_ascii_alphanumeric() || b == b'+' || b == b'/' || b == b'='));
    let usk = encode_usk(&setup.usks[0].1);
    assert_eq!(usk.len(), 768);
    assert_ne!(pk.as_bytes(), &setup.mpk.to_bytes()[..]);
}

#[test]
fn base64_of_known_bytes() {
    let setup = TestSetup::default();
    let text = encode_pk(&setup.mpk);
    let bytes = setup.mpk.to_bytes();
    let alphabet = b"ABCDEFGHIJKLMNOPQRSTUVWXYZabcdefghijklmnopqrstuvwxyz0123456789+/";
    // every three bytes give four letters; 672 bytes need no padding
    for (group, letters) in bytes.chunks(3).zip(text.as_bytes().chunks(4)) {
        let n = ((group[0] as u32) << 16) | ((group[1] as u32) << 8) | group[2] as u32;
        let expected = [
            alphabet[(n >> 18) as usize & 63],
            alphabet[(n >> 12) as usize & 63],
            alphabet[(n >> 6) as usize & 63],
            alphabet[n as usize & 63],
        ];
        assert_eq!(letters, &expected);
    }
}

#[test]
fn malformed_base64_is_a_format_violation() {
    let setup = TestSetup::default();
    let text = encode_pk(&setup.mpk);
    assert!(matches!(decode_pk(""), Err(Error::FormatViolation)));
    assert!(matches!(decode_pk("not base64!"), Err(Error::FormatViolation)));
    assert!(matches!(decode_pk(&text[..text.len() - 1]), Err(Error::FormatViolation)));
    assert!(matches!(decode_pk(&text[..text.len() - 4]), Err(Error::FormatViolation)));
    assert!(matches!(decode_pk(&format!("{}AAAA", text)), Err(Error::FormatViolation)));
    assert!(matches!(decode_pk(&format!(" {}", text)), Err(Error::FormatViolation)));
    let stars = text.replacen(&text[10..11], "*", 1);
    assert!(matches!(decode_pk(&stars), Err(Error::FormatViolation)));
    assert!(matches!(decode_usk(""), Err(Error::FormatViolation)));
    // a public key is no user secret key: the length differs
    assert!(matches!(decode_usk(&text), Err(Error::FormatViolation)));
    assert!(matches!(decode_pk(&encode_usk(&setup.usks[0].1)), Err(Error::FormatViolation)));
}

#[test]
fn bytes_that_are_no_group_elements_are_format_violations() {
    assert!(matches!(UserSecretKey::from_bytes(&[0xFF; 576]), Err(Error::FormatViolation)));
    assert!(matches!(PublicKey::from_bytes(&[0xFF; 672]), Err(Error::FormatViolation)));
    assert!(matches!(SecretKey::from_bytes(&[0xFF; 512]), Err(Error::FormatViolation)));
    assert!(matches!(UserSecretKey::from_bytes(&[0; 575]), Err(Error::FormatViolation)));
    assert!(matches!(PublicKey::from_bytes(&[0; 673]), Err(Error::FormatViolation)));
    assert!(matches!(SecretKey::from_bytes(&[]), Err(Error::FormatViolation)));
    // well-formed base64 of the right length whose bytes are no key
    let text = "/".repeat(768);
    assert!(matches!(decode_usk(&text), Err(Error::FormatViolation)));
}

#[test]
fn corrupted_key_text_does_not_decode_to_the_key() {
    let setup = TestSetup::default();
    let usk = setup.usks[0].1;
    let text = encode_usk(&usk);
    let mut bytes = text.into_bytes();
    bytes[100] = if bytes[100] == b'A' { b'B' } else { b'A' };
    let corrupt = String::from_utf8(bytes).unwrap();
    match decode_usk(&corrupt) {
        Err(e) => assert_eq!(e, Error::FormatViolation),
        Ok(other) => assert_ne!(other.to_bytes(), usk.to_bytes()),
    }
}

#[test]
fn setup_is_the_same_for_the_same_seed() {
    let a = TestSetup::default();
    let b = TestSetup::default();
    assert_eq!(a.mpk.to_bytes(), b.mpk.to_bytes());
    assert_eq!(a.msk.to_bytes(), b.msk.to_bytes());
    assert_eq!(a.usks[0].1.to_bytes(), b.usks[0].1.to_bytes());
    assert_eq!(a.policies, b.policies);
    let mut rng = StdRng::seed_from_u64(2);
    let c = TestSetup::new(&mut rng);
    assert_ne!(a.mpk.to_bytes(), c.mpk.to_bytes());
    assert_eq!(a.policies, c.policies);
}

#[test]
fn setup_holds_the_two_policies_and_their_keys() {
    let setup = TestSetup::default();
    assert_eq!(setup.policies.len(), 2);
    assert_eq!(setup.policies[0].0, "j.doe@example.com");
    assert_eq!(setup.policies[1].0, "john.doe@example.com");
    assert_eq!(setup.policies[0].1.timestamp, 1566722350);
    assert_eq!(
        setup.policies[0].1.con,
        vec![irmaseal::identity::Attribute::new("pbdf.gemeente.personalData.bsn", Some("123456789"))]
    );
    assert_eq!(setup.policies[1].1.con.len(), 2);
    assert_eq!(setup.usks.len(), 2);
    assert_eq!(setup.usks[0].0, "j.doe@example.com");
    assert_eq!(setup.usks[1].0, "john.doe@example.com");
    assert!(setup.usk("john.doe@example.com").is_some());
    assert!(setup.usk("nobody").is_none());
}

#[test]
fn keys_of_the_setup_work_with_the_scheme() {
    let setup = TestSetup::default();
    let mut rng = StdRng::seed_from_u64(3);
    let pk = <CGWKV as IBKEM>::Pk::from_bytes(&setup.mpk.to_bytes()).unwrap();
    let usk = <CGWKV as IBKEM>::Usk::from_bytes(&setup.usks[0].1.to_bytes()).unwrap();
    let id = <CGWKV as IBKEM>::Id::derive(&setup.policies[0].1.canonical_bytes().unwrap());
    let (ct, ss) = CGWKV::encaps(&pk, &id, &mut rng);
    assert_eq!(CGWKV::decaps(None, &usk, &ct).unwrap(), ss);
}

#[test]
fn sizes_are_those_of_the_scheme() {
    assert_eq!(irmaseal::constants::PK_BYTES, CGWKV::PK_BYTES);
    assert_eq!(irmaseal::constants::SK_BYTES, CGWKV::SK_BYTES);
    assert_eq!(irmaseal::constants::USK_BYTES, CGWKV::USK_BYTES);
    assert_eq!(
        irmaseal::constants::CT_BYTES,
        <ibe::kem::mkem::Ciphertext<CGWKV> as Compress>::OUTPUT_SIZE
    );
    assert_eq!(irmaseal::constants::KEY_SIZE, 16);
    assert_eq!(irmaseal::constants::IV_SIZE, 16);
    assert_eq!(irmaseal::constants::TAG_SIZE, 16);
    assert_eq!(irmaseal::constants::NONCE_SIZE, 12);
    assert_eq!(irmaseal::constants::STREAM_NONCE_SIZE, 7);
    assert_eq!(irmaseal::constants::MAX_HEADER_SIZE, 1 << 20);
    assert_eq!(irmaseal::constants::SYMMETRIC_CRYPTO_DEFAULT_CHUNK, 65536);
}

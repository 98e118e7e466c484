use irmaseal::artifacts::{PublicKey, SecretKey, UserSecretKey};
use irmaseal::constants::{PRELUDE, VERSION_V2};
use irmaseal::error::Error;
use irmaseal::identity::{Attribute, Policy};
use irmaseal::metadata::{Algorithm, Header, Mode};
use irmaseal::stream::sealer::{seal, seal_with, write_preamble, Sealer};
use irmaseal::stream::unsealer::{read_preamble, unseal, Unsealer};
use irmaseal::test_common::TestSetup;
use rand::rngs::StdRng;
use rand::SeedableRng;

fn keys(seed: u64) -> (StdRng, PublicKey, SecretKey) {
    let mut rng = StdRng::seed_from_u64(seed);
    let setup = TestSetup::new(&mut rng);
    (rng, setup.mpk, setup.msk)
}

fn usk_for(sk: &SecretKey, policy: &Policy, rng: &mut StdRng) -> UserSecretKey {
    let disclosed = policy.con.clone();
    let response = irmaseal::api::issue_key(
        sk,
        irmaseal::api::SessionStatus::Done,
        Some(irmaseal::api::ProofStatus::Valid),
        &policy.con,
        &disclosed,
        policy.timestamp,
        rng,
    )
    .unwrap();
    response.key.unwrap()
}

fn alice() -> Policy {
    Policy { timestamp: 1700000000, con: vec![Attribute::new("email", Some("a@ex"))] }
}

fn bob() -> Policy {
    Policy {
        timestamp: 1700000000,
        con: vec![Attribute::new("email", Some("b@ex")), Attribute::new("name", Some("bob"))],
    }
}

#[test]
fn hello_world_round_trips() {
    let (mut rng, mpk, msk) = keys(1);
    let policies = vec![("alice".to_string(), alice())];
    let envelope = seal(&mpk, &policies, &mut rng, b"hello world").unwrap();
    let usk = usk_for(&msk, &alice(), &mut rng);
    assert_eq!(unseal(&envelope, "alice", &usk).unwrap(), b"hello world".to_vec());
}

#[test]
fn envelope_begins_with_prelude_version_and_header_length() {
    let (mut rng, mpk, _) = keys(2);
    let policies = vec![("alice".to_string(), alice())];
    let envelope = seal(&mpk, &policies, &mut rng, b"hello world").unwrap();
    assert_eq!(&envelope[0..4], &[0x14, 0x8A, 0x8E, 0xA7]);
    assert_eq!(&envelope[0..4], &PRELUDE);
    assert_eq!(&envelope[4..6], &[0, 2]);
    assert_eq!(VERSION_V2, 2);
    let header_len = u32::from_be_bytes([envelope[6], envelope[7], envelope[8], envelope[9]]) as usize;
    let (unsealer, start) = Unsealer::new(&envelope).unwrap();
    assert_eq!(start, 10 + header_len);
    assert_eq!(unsealer.version, 2);
    // one final segment: eleven bytes and the tag
    assert_eq!(envelope.len(), start + 11 + 16);
    let mut fixed = [0u8; 10];
    fixed.copy_from_slice(&envelope[..10]);
    assert_eq!(read_preamble(&fixed), Ok(header_len));
    let mut header_bytes = Vec::new();
    unsealer.header.msgpack_into(&mut header_bytes).unwrap();
    assert_eq!(&envelope[10..start], &header_bytes[..]);
}

#[test]
fn both_recipients_open_and_a_later_timestamp_does_not() {
    let (mut rng, mpk, msk) = keys(3);
    let policies = vec![("alice".to_string(), alice()), ("bob".to_string(), bob())];
    let payload = b"for both of you".to_vec();
    let envelope = seal(&mpk, &policies, &mut rng, &payload).unwrap();

    let usk_alice = usk_for(&msk, &alice(), &mut rng);
    let usk_bob = usk_for(&msk, &bob(), &mut rng);
    assert_eq!(unseal(&envelope, "alice", &usk_alice).unwrap(), payload);
    assert_eq!(unseal(&envelope, "bob", &usk_bob).unwrap(), payload);

    let mut later = alice();
    later.timestamp += 1;
    let usk_later = usk_for(&msk, &later, &mut rng);
    assert_eq!(unseal(&envelope, "alice", &usk_later), Err(Error::Kem));
    assert_eq!(unseal(&envelope, "alice", &usk_bob), Err(Error::Kem));
}

#[test]
fn unknown_recipient_is_refused() {
    let (mut rng, mpk, msk) = keys(4);
    let policies = vec![("alice".to_string(), alice())];
    let envelope = seal(&mpk, &policies, &mut rng, b"x").unwrap();
    let usk = usk_for(&msk, &alice(), &mut rng);
    assert_eq!(unseal(&envelope, "carol", &usk), Err(Error::ConstraintViolation));
}

#[test]
fn large_payload_round_trips_in_four_segments() {
    let (mut rng, mpk, msk) = keys(5);
    let policies = vec![("alice".to_string(), alice())];
    let payload: Vec<u8> = (0..196609usize).map(|i| (i % 253) as u8).collect();
    let envelope = seal(&mpk, &policies, &mut rng, &payload).unwrap();
    let (_, start) = Unsealer::new(&envelope).unwrap();
    assert_eq!(envelope.len() - start, 3 * (65536 + 16) + (1 + 16));
    let usk = usk_for(&msk, &alice(), &mut rng);
    assert_eq!(unseal(&envelope, "alice", &usk).unwrap(), payload);
}

#[test]
fn corrupt_second_segment_fails_before_it_is_handed_out() {
    let (mut rng, mpk, msk) = keys(6);
    let policies = vec![("alice".to_string(), alice())];
    let payload: Vec<u8> = (0..196609usize).map(|i| (i % 253) as u8).collect();
    let mut envelope = seal(&mpk, &policies, &mut rng, &payload).unwrap();
    let (unsealer, start) = Unsealer::new(&envelope).unwrap();
    let header_len = start - 10;
    let offset = 4 + 2 + 4 + header_len + 65536 + 5;
    envelope[offset] ^= 0x10;
    let usk = usk_for(&msk, &alice(), &mut rng);
    assert_eq!(unseal(&envelope, "alice", &usk), Err(Error::AuthenticationFailure));

    // piece by piece: the first segment is handed out, the second never is
    let mut opener = unsealer.opener("alice", &usk).unwrap();
    let mut out = Vec::new();
    let mut failed = false;
    for chunk in envelope[start..].chunks(65536 + 16) {
        match opener.update(chunk) {
            Ok((next, plain)) => {
                opener = next;
                out.extend(plain);
            }
            Err(e) => {
                assert_eq!(e, Error::AuthenticationFailure);
                failed = true;
                break;
            }
        }
    }
    assert!(failed);
    assert!(out.len() <= 65536);
    assert_eq!(&out[..], &payload[..out.len()]);
}

#[test]
fn wrong_prelude_is_a_format_violation() {
    let (mut rng, mpk, msk) = keys(7);
    let policies = vec![("alice".to_string(), alice())];
    let envelope = seal(&mpk, &policies, &mut rng, b"hello world").unwrap();
    let usk = usk_for(&msk, &alice(), &mut rng);
    for byte in 0..4 {
        for bit in 0..8 {
            let mut corrupt = envelope.clone();
            corrupt[byte] ^= 1 << bit;
            assert_eq!(unseal(&corrupt, "alice", &usk), Err(Error::FormatViolation));
        }
    }
}

#[test]
fn unsupported_version_is_a_format_violation() {
    let (mut rng, mpk, msk) = keys(8);
    let policies = vec![("alice".to_string(), alice())];
    let envelope = seal(&mpk, &policies, &mut rng, b"hello world").unwrap();
    let usk = usk_for(&msk, &alice(), &mut rng);
    for byte in 4..6 {
        for bit in 0..8 {
            let mut corrupt = envelope.clone();
            corrupt[byte] ^= 1 << bit;
            assert_eq!(unseal(&corrupt, "alice", &usk), Err(Error::FormatViolation));
        }
    }
    let mut fixed = [0x14, 0x8A, 0x8E, 0xA7, 0, 1, 0, 0, 0, 5];
    assert_eq!(read_preamble(&fixed), Err(Error::FormatViolation));
    fixed[5] = 2;
    assert_eq!(read_preamble(&fixed), Ok(5));
}

#[test]
fn header_length_is_capped_at_one_mebibyte() {
    let at_cap = [0x14, 0x8A, 0x8E, 0xA7, 0, 2, 0x00, 0x10, 0x00, 0x00];
    assert_eq!(read_preamble(&at_cap), Ok(1048576));
    let over = [0x14, 0x8A, 0x8E, 0xA7, 0, 2, 0x00, 0x10, 0x00, 0x01];
    assert_eq!(read_preamble(&over), Err(Error::ConstraintViolation));
    let far_over = [0x14, 0x8A, 0x8E, 0xA7, 0, 2, 0xFF, 0xFF, 0xFF, 0xFF];
    assert_eq!(read_preamble(&far_over), Err(Error::ConstraintViolation));
    assert!(matches!(Unsealer::new(&over), Err(Error::ConstraintViolation)));
}

#[test]
fn short_envelopes_are_format_violations() {
    assert!(matches!(Unsealer::new(&[]), Err(Error::FormatViolation)));
    assert!(matches!(Unsealer::new(&[0x14, 0x8A, 0x8E, 0xA7, 0, 2, 0, 0, 0]), Err(Error::FormatViolation)));
    // announces five bytes of header and carries four
    let short = [0x14, 0x8A, 0x8E, 0xA7, 0, 2, 0, 0, 0, 5, 1, 2, 3, 4];
    assert!(matches!(Unsealer::new(&short), Err(Error::FormatViolation)));
    // announces a header that is none
    let junk = [0x14, 0x8A, 0x8E, 0xA7, 0, 2, 0, 0, 0, 2, 0x80, 0x80];
    assert!(matches!(Unsealer::new(&junk), Err(Error::FormatViolation)));
}

#[test]
fn flipped_bits_in_length_and_stream_never_yield_the_payload() {
    let (mut rng, mpk, msk) = keys(9);
    let policies = vec![("alice".to_string(), alice())];
    let envelope = seal(&mpk, &policies, &mut rng, b"hello world").unwrap();
    let (_, start) = Unsealer::new(&envelope).unwrap();
    let usk = usk_for(&msk, &alice(), &mut rng);
    for byte in 6..10 {
        for bit in [0, 3, 7] {
            let mut corrupt = envelope.clone();
            corrupt[byte] ^= 1 << bit;
            let res = unseal(&corrupt, "alice", &usk);
            assert!(matches!(
                res,
                Err(Error::FormatViolation) | Err(Error::ConstraintViolation) | Err(Error::AuthenticationFailure)
            ));
        }
    }
    let (unsealer, _) = Unsealer::new(&envelope).unwrap();
    let key = unsealer.recipient_key("alice", &usk).unwrap();
    let iv = match unsealer.header.algo {
        Algorithm::Aes128Gcm { iv } => iv,
        _ => unreachable!(),
    };
    for byte in start..envelope.len() {
        for bit in 0..8 {
            let mut corrupt = envelope.clone();
            corrupt[byte] ^= 1 << bit;
            assert_eq!(
                irmaseal::stream::open_stream(key, iv, 65536, &corrupt[start..]),
                Err(Error::AuthenticationFailure)
            );
        }
    }
    assert_eq!(unsealer.unseal("alice", &usk, &envelope[start..]).unwrap(), b"hello world".to_vec());
    let mut corrupt = envelope.clone();
    corrupt[start] ^= 1;
    assert_eq!(unseal(&corrupt, "alice", &usk), Err(Error::AuthenticationFailure));
}

#[test]
fn flipped_bits_in_a_ciphertext_of_the_header_fail() {
    let (mut rng, mpk, msk) = keys(10);
    let policies = vec![("alice".to_string(), alice())];
    let envelope = seal(&mpk, &policies, &mut rng, b"hello world").unwrap();
    let (unsealer, _) = Unsealer::new(&envelope).unwrap();
    let usk = usk_for(&msk, &alice(), &mut rng);
    let mut tampered = unsealer.header;
    tampered.policies[0].1.ct[250] ^= 1;
    let res = tampered.policies[0].1.derive_keys(&usk);
    assert!(matches!(res, Err(Error::Kem) | Err(Error::FormatViolation)));
}

#[test]
fn the_header_is_not_under_the_seal() {
    // the bytes of the initialization vector behind the seventh play no part
    let (mut rng, mpk, msk) = keys(11);
    let policies = vec![("alice".to_string(), alice())];
    let (header, secret) = Header::new(&mpk, &policies, &mut rng).unwrap();
    let envelope = seal_with(&header, &secret, b"hello world").unwrap();
    let (_, start) = Unsealer::new(&envelope).unwrap();
    let iv = match header.algo {
        Algorithm::Aes128Gcm { iv } => iv,
        _ => unreachable!(),
    };
    let mut other = iv;
    other[15] ^= 1;
    let changed = header.with_algo(Algorithm::Aes128Gcm { iv: other });
    let mut forged = Vec::new();
    write_preamble(&changed, &mut forged).unwrap();
    forged.extend_from_slice(&envelope[start..]);
    let usk = usk_for(&msk, &alice(), &mut rng);
    assert_eq!(unseal(&forged, "alice", &usk).unwrap(), b"hello world".to_vec());
}

#[test]
fn seal_with_is_preamble_and_sealed_stream() {
    let (mut rng, mpk, _) = keys(12);
    let policies = vec![("alice".to_string(), alice())];
    let (header, secret) = Header::new(&mpk, &policies, &mut rng).unwrap();
    let header = header.with_mode(Mode::Streaming { segment_size: 4, size_hint: (0, None) });
    let envelope = seal_with(&header, &secret, b"0123456789").unwrap();

    let mut expected = Vec::new();
    write_preamble(&header, &mut expected).unwrap();
    let iv = match header.algo {
        Algorithm::Aes128Gcm { iv } => iv,
        _ => unreachable!(),
    };
    let key = irmaseal::util::derive_keys(&secret).aes_key;
    expected.extend(irmaseal::stream::seal_stream(key, iv, 4, b"0123456789").unwrap());
    assert_eq!(envelope, expected);
}

#[test]
fn sealer_piece_by_piece_gives_the_same_envelope() {
    let (mut rng, mpk, _) = keys(13);
    let policies = vec![("alice".to_string(), alice())];
    let (header, secret) = Header::new(&mpk, &policies, &mut rng).unwrap();
    let header = header.with_mode(Mode::Streaming { segment_size: 8, size_hint: (0, None) });
    let payload: Vec<u8> = (0..50u8).collect();
    let whole = seal_with(&header, &secret, &payload).unwrap();

    let (mut sealer, mut out) = Sealer::new(&header, &secret).unwrap();
    for chunk in payload.chunks(7) {
        out.extend(sealer.update(chunk).unwrap());
    }
    out.extend(sealer.finish());
    assert_eq!(out, whole);
}

#[test]
fn only_streaming_with_aes_gcm_is_sealed_and_opened() {
    let (mut rng, mpk, msk) = keys(14);
    let policies = vec![("alice".to_string(), alice())];
    let (header, secret) = Header::new(&mpk, &policies, &mut rng).unwrap();
    let in_memory = header.with_mode(Mode::InMemory { size: 3 });
    assert_eq!(seal_with(&in_memory, &secret, b"abc"), Err(Error::ConstraintViolation));
    let other = in_memory
        .with_mode(Mode::default())
        .with_algo(Algorithm::Aegis128 { iv: [0; 16] });
    assert_eq!(seal_with(&other, &secret, b"abc"), Err(Error::ConstraintViolation));
    let zero = other
        .with_algo(Algorithm::Aes128Gcm { iv: [0; 16] })
        .with_mode(Mode::Streaming { segment_size: 0, size_hint: (0, None) });
    assert_eq!(seal_with(&zero, &secret, b"abc"), Err(Error::ConstraintViolation));

    // a reader meets such a header: it reads it, and refuses to open
    let mut envelope = Vec::new();
    write_preamble(&zero, &mut envelope).unwrap();
    envelope.extend_from_slice(&[0u8; 16]);
    let usk = usk_for(&msk, &alice(), &mut rng);
    assert_eq!(unseal(&envelope, "alice", &usk), Err(Error::ConstraintViolation));
}

#[test]
fn seal_refuses_what_header_new_refuses() {
    let (mut rng, mpk, _) = keys(15);
    let none: Vec<(String, Policy)> = Vec::new();
    assert_eq!(seal(&mpk, &none, &mut rng, b"abc"), Err(Error::ConstraintViolation));
}

#[test]
fn empty_payload_round_trips() {
    let (mut rng, mpk, msk) = keys(16);
    let policies = vec![("alice".to_string(), alice())];
    let envelope = seal(&mpk, &policies, &mut rng, b"").unwrap();
    let (_, start) = Unsealer::new(&envelope).unwrap();
    assert_eq!(envelope.len() - start, 16);
    let usk = usk_for(&msk, &alice(), &mut rng);
    assert_eq!(unseal(&envelope, "alice", &usk).unwrap(), Vec::<u8>::new());
}

#[test]
fn a_header_without_recipients_is_not_sealed_under() {
    let (mut rng, mpk, _) = keys(17);
    let policies = vec![("alice".to_string(), alice())];
    let (mut header, secret) = Header::new(&mpk, &policies, &mut rng).unwrap();
    header.policies.clear();
    assert_eq!(seal_with(&header, &secret, b"abc"), Err(Error::ConstraintViolation));
    let mut out = vec![7];
    assert_eq!(write_preamble(&header, &mut out), Err(Error::ConstraintViolation));
    assert_eq!(out, vec![7]);
    assert!(Sealer::new(&header, &secret).is_err());
}

#[test]
fn every_header_gets_its_own_initialization_vector_and_secret() {
    let (mut rng, mpk, _) = keys(18);
    let policies = vec![("alice".to_string(), alice())];
    let (a, secret_a) = Header::new(&mpk, &policies, &mut rng).unwrap();
    let (b, secret_b) = Header::new(&mpk, &policies, &mut rng).unwrap();
    assert_ne!(a.algo, b.algo);
    assert_ne!(secret_a, secret_b);
    assert_ne!(a.policies[0].1.ct, b.policies[0].1.ct);
    assert_ne!(a.algo, Algorithm::Aes128Gcm { iv: [0; 16] });
}

#[test]
fn envelope_is_as_long_as_its_parts() {
    let (mut rng, mpk, _) = keys(31);
    let policies = vec![("alice".to_string(), alice()), ("bob".to_string(), bob())];
    for len in [0usize, 1, 65535, 65536, 65537, 200_000] {
        let payload: Vec<u8> = (0..len).map(|i| (i % 253) as u8).collect();
        let envelope = seal(&mpk, &policies, &mut rng, &payload).unwrap();
        let header_len = u32::from_be_bytes([envelope[6], envelope[7], envelope[8], envelope[9]]);
        let sealed_len = len + 16 * (len / 65536 + 1);
        assert_eq!(envelope.len(), 10 + header_len as usize + sealed_len);
    }
}

#[test]
fn seal_writes_a_header_with_the_defaults() {
    let (mut rng, mpk, _) = keys(32);
    let policies = vec![("alice".to_string(), alice()), ("bob".to_string(), bob())];
    let envelope = seal(&mpk, &policies, &mut rng, b"payload").unwrap();
    let (unsealer, _) = Unsealer::new(&envelope).unwrap();
    assert_eq!(unsealer.header.mode, Mode::Streaming { segment_size: 65536, size_hint: (0, None) });
    assert!(matches!(unsealer.header.algo, Algorithm::Aes128Gcm { .. }));
    assert_eq!(unsealer.header.recipient_ids(), vec!["alice", "bob"]);
}

#[test]
fn seal_refuses_recipients_out_of_order_and_leaves_the_generator_alone() {
    let (mut rng, mpk, _) = keys(33);
    let mut untouched = rng.clone();
    let policies = vec![("bob".to_string(), bob()), ("alice".to_string(), alice())];
    assert!(matches!(seal(&mpk, &policies, &mut rng, b"payload"), Err(Error::ConstraintViolation)));
    assert_eq!(rand::RngCore::next_u64(&mut rng), rand::RngCore::next_u64(&mut untouched));
}

#[test]
fn an_envelope_whose_header_has_no_mode_is_opened_in_the_default_mode() {
    let (mut rng, mpk, msk) = keys(34);
    let policies = vec![("alice".to_string(), alice())];
    let envelope = seal(&mpk, &policies, &mut rng, b"hello world").unwrap();
    let (unsealer, start) = Unsealer::new(&envelope).unwrap();
    let mut full = Vec::new();
    unsealer.header.msgpack_into(&mut full).unwrap();
    assert_eq!(&envelope[10..start], &full[..]);
    // the same header, written as a map of two entries without the mode
    let mode_at = full.windows(5).rposition(|w| w == [0xa4, b'm', b'o', b'd', b'e']).unwrap();
    let mut short = full[..mode_at].to_vec();
    short[0] = 0x82;
    let mut rewritten = envelope[..6].to_vec();
    rewritten.extend_from_slice(&(short.len() as u32).to_be_bytes());
    rewritten.extend_from_slice(&short);
    rewritten.extend_from_slice(&envelope[start..]);
    let usk = usk_for(&msk, &alice(), &mut rng);
    assert_eq!(unseal(&rewritten, "alice", &usk).unwrap(), b"hello world".to_vec());
}

use irmaseal::error::Error;
use irmaseal::identity::{Attribute, HiddenPolicy, Policy};
use irmaseal::metadata::{
    aes128gcm_with, default_algo, Algorithm, Header, Mode, RecipientHeader,
};
use irmaseal::test_common::TestSetup;
use irmaseal::util::SharedSecret;
use rand::rngs::StdRng;
use rand::{RngCore, SeedableRng};
use serde::ser::{SerializeMap, SerializeStruct, SerializeStructVariant, SerializeTuple};
use serde::{Serialize, Serializer};
use std::collections::BTreeMap;

// What a derived serializer would do for the header, written out by hand, to
// hold the library's encodings against those of the serializer crates.
struct WireBytes<'a>(&'a [u8]);
struct WireAttr<'a>(&'a Attribute);
struct WireCon<'a>(&'a [Attribute]);
struct WirePolicy<'a>(&'a HiddenPolicy);
struct WireRecipient<'a>(&'a RecipientHeader);
struct WireRecipients<'a>(&'a [(String, RecipientHeader)]);
struct WireAlgo<'a>(&'a Algorithm);
struct WireHint<'a>(&'a (u64, Option<u64>));
struct WireMode<'a>(&'a Mode);
struct WireHeader<'a>(&'a Header);

impl Serialize for WireBytes<'_> {
    fn serialize<S: Serializer>(&self, s: S) -> Result<S::Ok, S::Error> {
        let mut t = s.serialize_tuple(self.0.len())?;
        for b in self.0 {
            t.serialize_element(b)?;
        }
        t.end()
    }
}

impl Serialize for WireAttr<'_> {
    fn serialize<S: Serializer>(&self, s: S) -> Result<S::Ok, S::Error> {
        let mut st = s.serialize_struct("Attribute", 2)?;
        st.serialize_field("type", &self.0.atype)?;
        st.serialize_field("value", &self.0.value)?;
        st.end()
    }
}

impl Serialize for WireCon<'_> {
    fn serialize<S: Serializer>(&self, s: S) -> Result<S::Ok, S::Error> {
        s.collect_seq(self.0.iter().map(WireAttr))
    }
}

impl Serialize for WirePolicy<'_> {
    fn serialize<S: Serializer>(&self, s: S) -> Result<S::Ok, S::Error> {
        let mut st = s.serialize_struct("HiddenPolicy", 2)?;
        st.serialize_field("timestamp", &self.0.timestamp)?;
        st.serialize_field("con", &WireCon(&self.0.con))?;
        st.end()
    }
}

impl Serialize for WireRecipient<'_> {
    fn serialize<S: Serializer>(&self, s: S) -> Result<S::Ok, S::Error> {
        let mut st = s.serialize_struct("RecipientHeader", 2)?;
        st.serialize_field("p", &WirePolicy(&self.0.policy))?;
        st.serialize_field("ct", &WireBytes(&self.0.ct))?;
        st.end()
    }
}

impl Serialize for WireRecipients<'_> {
    fn serialize<S: Serializer>(&self, s: S) -> Result<S::Ok, S::Error> {
        let ordered: BTreeMap<&String, &RecipientHeader> =
            self.0.iter().map(|(id, r)| (id, r)).collect();
        let mut m = s.serialize_map(Some(ordered.len()))?;
        for (id, r) in ordered {
            m.serialize_entry(id, &WireRecipient(r))?;
        }
        m.end()
    }
}

// The header as a writer wrote it that knew no mode.
struct WireHeaderWithoutMode<'a>(&'a Header);

impl Serialize for WireHeaderWithoutMode<'_> {
    fn serialize<S: Serializer>(&self, s: S) -> Result<S::Ok, S::Error> {
        let mut st = s.serialize_struct("Header", 2)?;
        st.serialize_field("rs", &WireRecipients(&self.0.policies))?;
        st.serialize_field("algo", &WireAlgo(&self.0.algo))?;
        st.end()
    }
}

fn reference_msgpack_without_mode(header: &Header) -> Vec<u8> {
    let mut out = Vec::new();
    let mut ser = rmp_serde::encode::Serializer::new(&mut out).with_struct_map();
    WireHeaderWithoutMode(header).serialize(&mut ser).unwrap();
    out
}

fn reference_json_without_mode(header: &Header) -> String {
    serde_json::to_string(&WireHeaderWithoutMode(header)).unwrap()
}

impl Serialize for WireAlgo<'_> {
    fn serialize<S: Serializer>(&self, s: S) -> Result<S::Ok, S::Error> {
        let (index, name, iv): (u32, &'static str, &[u8]) = match self.0 {
            Algorithm::Aes128Gcm { iv } => (0, "Aes128Gcm", iv),
            Algorithm::XSalsa20Poly1305 { iv } => (1, "XSalsa20Poly1305", iv),
            Algorithm::Aes128Ocb { iv } => (2, "Aes128Ocb", iv),
            Algorithm::Aegis128 { iv } => (3, "Aegis128", iv),
        };
        let mut sv = s.serialize_struct_variant("Algorithm", index, name, 1)?;
        sv.serialize_field("iv", &WireBytes(iv))?;
        sv.end()
    }
}

impl Serialize for WireHint<'_> {
    fn serialize<S: Serializer>(&self, s: S) -> Result<S::Ok, S::Error> {
        let mut t = s.serialize_tuple(2)?;
        t.serialize_element(&self.0 .0)?;
        t.serialize_element(&self.0 .1)?;
        t.end()
    }
}

impl Serialize for WireMode<'_> {
    fn serialize<S: Serializer>(&self, s: S) -> Result<S::Ok, S::Error> {
        match self.0 {
            Mode::Streaming { segment_size, size_hint } => {
                let mut sv = s.serialize_struct_variant("Mode", 0, "Streaming", 2)?;
                sv.serialize_field("segment_size", segment_size)?;
                sv.serialize_field("size_hint", &WireHint(size_hint))?;
                sv.end()
            }
            Mode::InMemory { size } => {
                let mut sv = s.serialize_struct_variant("Mode", 1, "InMemory", 1)?;
                sv.serialize_field("size", size)?;
                sv.end()
            }
        }
    }
}

impl Serialize for WireHeader<'_> {
    fn serialize<S: Serializer>(&self, s: S) -> Result<S::Ok, S::Error> {
        let mut st = s.serialize_struct("Header", 3)?;
        st.serialize_field("rs", &WireRecipients(&self.0.policies))?;
        st.serialize_field("algo", &WireAlgo(&self.0.algo))?;
        st.serialize_field("mode", &WireMode(&self.0.mode))?;
        st.end()
    }
}

fn reference_msgpack(header: &Header) -> Vec<u8> {
    let mut out = Vec::new();
    let mut ser = rmp_serde::encode::Serializer::new(&mut out).with_struct_map();
    WireHeader(header).serialize(&mut ser).unwrap();
    out
}

fn reference_json(header: &Header) -> String {
    serde_json::to_string(&WireHeader(header)).unwrap()
}

fn msgpack(header: &Header) -> Vec<u8> {
    let mut out = Vec::new();
    header.msgpack_into(&mut out).unwrap();
    out
}

fn ct(seed: u8) -> [u8; 284] {
    let mut ct = [0u8; 284];
    for (i, b) in ct.iter_mut().enumerate() {
        *b = (i as u8).wrapping_mul(31).wrapping_add(seed);
    }
    ct
}

fn hidden(timestamp: u64, types: &[&str]) -> HiddenPolicy {
    HiddenPolicy { timestamp, con: types.iter().map(|t| Attribute::new(t, None)).collect() }
}

fn sample_header() -> Header {
    Header {
        policies: vec![
            ("".to_string(), RecipientHeader { policy: hidden(u64::MAX, &[]), ct: ct(77) }),
            ("alice".to_string(), RecipientHeader { policy: hidden(1700000000, &["email"]), ct: ct(1) }),
            (
                "bob \"the\\builder\"\n".to_string(),
                RecipientHeader { policy: hidden(5, &["näme", "tab\there", ""]), ct: ct(200) },
            ),
        ],
        algo: Algorithm::Aes128Gcm { iv: [0, 1, 127, 128, 255, 5, 6, 7, 8, 9, 10, 11, 12, 13, 14, 15] },
        mode: Mode::Streaming { segment_size: 65536, size_hint: (0, None) },
    }
}

fn assert_same(a: &Header, b: &Header) {
    assert_eq!(a.policies.len(), b.policies.len());
    for (x, y) in a.policies.iter().zip(b.policies.iter()) {
        assert_eq!(x.0, y.0);
        assert_eq!(x.1.policy, y.1.policy);
        assert_eq!(x.1.ct, y.1.ct);
    }
    assert_eq!(a.algo, b.algo);
    assert_eq!(a.mode, b.mode);
}

fn variants() -> Vec<Header> {
    let mut all = Vec::new();
    for algo in [
        Algorithm::Aes128Gcm { iv: [9; 16] },
        Algorithm::XSalsa20Poly1305 { iv: [200; 24] },
        Algorithm::Aes128Ocb { iv: [0; 12] },
        Algorithm::Aegis128 { iv: [255; 16] },
    ] {
        for mode in [
            Mode::Streaming { segment_size: 65536, size_hint: (0, None) },
            Mode::Streaming { segment_size: 1, size_hint: (12, Some(u64::MAX)) },
            Mode::Streaming { segment_size: u32::MAX, size_hint: (300, Some(70000)) },
            Mode::InMemory { size: 1024 },
            Mode::InMemory { size: 0 },
        ] {
            all.push(sample_header().with_algo(algo).with_mode(mode));
        }
    }
    all
}

#[test]
fn test_enc_dec_json() {
    let mut rng = rand::thread_rng();
    let mut rng = StdRng::from_rng(&mut rng).unwrap();
    let setup = TestSetup::default();

    let ids: Vec<String> = setup.policies.iter().map(|e| e.0.clone()).collect();
    let (meta, _ss) = Header::new(&setup.mpk, &setup.policies, &mut rng).unwrap();
    let s = meta.to_json_string().unwrap();
    let decoded = Header::from_json_string(&s).unwrap();

    assert_eq!(decoded.policies.len(), 2);

    assert_eq!(&decoded.get(&ids[0]).unwrap().policy, &setup.policies[0].1.to_hidden());

    assert_eq!(&decoded.algo, &meta.algo);
    assert_eq!(&decoded.mode, &meta.mode);
}

#[test]
fn test_enc_dec_msgpack() {
    let mut rng = rand::thread_rng();
    let mut rng = StdRng::from_rng(&mut rng).unwrap();
    let setup = TestSetup::default();
    let ids: Vec<String> = setup.policies.iter().map(|e| e.0.clone()).collect();

    let (meta, _ss) = Header::new(&setup.mpk, &setup.policies, &mut rng).unwrap();

    let mut v = Vec::new();
    meta.msgpack_into(&mut v).unwrap();

    let decoded = Header::msgpack_from(&v).unwrap();

    assert_eq!(&decoded.get(&ids[0]).unwrap().policy, &setup.policies[0].1.to_hidden());
    assert_eq!(&decoded.algo, &meta.algo);
    assert_eq!(&decoded.mode, &meta.mode);
}

#[test]
fn test_transcode() {
    // This test encodes to binary and then transcodes into JSON with the
    // serializer crates. The transcoded data is compared with a direct
    // serialization of the same metadata.
    let mut rng = rand::thread_rng();
    let mut rng = StdRng::from_rng(&mut rng).unwrap();
    let setup = TestSetup::default();

    let mut v1 = Vec::new();

    let meta = Header::new(&setup.mpk, &setup.policies, &mut rng)
        .unwrap()
        .0
        .with_mode(Mode::InMemory { size: 1024 })
        .with_algo(default_algo(&mut rng));

    meta.msgpack_into(&mut v1).unwrap();

    let s1 = meta.to_json_string().unwrap();

    let mut tmp = Vec::new();

    {
        let mut des = rmp_serde::decode::Deserializer::new(&v1[..]);
        let mut ser = serde_json::Serializer::new(&mut tmp);
        serde_transcode::transcode(&mut des, &mut ser).unwrap();
    }

    let s2 = String::from_utf8(tmp).unwrap();

    assert_eq!(s1, s2);

    // Reading the binary form and writing JSON gives the same text.
    let s3 = Header::msgpack_from(&v1).unwrap().to_json_string().unwrap();
    assert_eq!(s1, s3);
}

#[test]
fn test_round() {
    // This test tests that both encoding methods derive the same keys as the sender.
    let mut rng = rand::thread_rng();
    let mut rng = StdRng::from_rng(&mut rng).unwrap();
    let setup = TestSetup::default();
    let ids: Vec<String> = setup.policies.iter().map(|e| e.0.clone()).collect();

    let test_id = &ids[1];
    let test_usk = setup.usk(test_id).unwrap();

    let (meta, ss1) = Header::new(&setup.mpk, &setup.policies, &mut rng).unwrap();
    // Encode to binary via MessagePack.
    let mut v = Vec::new();
    meta.msgpack_into(&mut v).unwrap();

    // Encode to JSON string.
    let s = meta.to_json_string().unwrap();

    let decoded1 = Header::msgpack_from(&v).unwrap();
    let ss2 = decoded1.get(test_id).unwrap().derive_keys(test_usk).unwrap();

    let decoded2 = Header::from_json_string(&s).unwrap();
    let ss3 = decoded2.get(test_id).unwrap().derive_keys(test_usk).unwrap();

    assert_eq!(&decoded1.algo, &meta.algo);
    assert_eq!(&decoded1.mode, &meta.mode);

    // Make sure we derive the same keys.
    assert_eq!(&ss1, &ss2);
    assert_eq!(&ss1, &ss3);
}

#[test]
fn shared_secret_agrees_for_every_recipient() {
    let mut rng = StdRng::seed_from_u64(11);
    let setup = TestSetup::new(&mut rng);
    let (header, ss) = Header::new(&setup.mpk, &setup.policies, &mut rng).unwrap();
    for (id, usk) in &setup.usks {
        let got: SharedSecret = header.get(id).unwrap().derive_keys(usk).unwrap();
        assert_eq!(got, ss);
    }
}

#[test]
fn key_of_another_recipient_is_refused() {
    let mut rng = StdRng::seed_from_u64(12);
    let setup = TestSetup::new(&mut rng);
    let (header, _ss) = Header::new(&setup.mpk, &setup.policies, &mut rng).unwrap();
    let wrong = &setup.usks[1].1;
    assert_eq!(header.policies[0].1.derive_keys(wrong), Err(Error::Kem));
}

#[test]
fn ciphertext_that_is_no_group_element_is_a_format_violation() {
    let mut rng = StdRng::seed_from_u64(13);
    let setup = TestSetup::new(&mut rng);
    let entry = RecipientHeader { policy: hidden(1, &["x"]), ct: [0xFF; 284] };
    assert_eq!(entry.derive_keys(&setup.usks[0].1), Err(Error::FormatViolation));
}

#[test]
fn new_header_has_the_defaults() {
    let mut rng = StdRng::seed_from_u64(14);
    let setup = TestSetup::new(&mut rng);
    let (header, _ss) = Header::new(&setup.mpk, &setup.policies, &mut rng).unwrap();
    assert_eq!(header.mode, Mode::Streaming { segment_size: 65536, size_hint: (0, None) });
    assert_eq!(header.mode, Mode::default());
    assert!(matches!(header.algo, Algorithm::Aes128Gcm { .. }));
    assert_eq!(header.recipient_ids(), vec!["j.doe@example.com", "john.doe@example.com"]);
    assert_eq!(header.policies[1].1.policy, setup.policies[1].1.to_hidden());
}

#[test]
fn new_header_refuses_no_recipients() {
    let mut rng = StdRng::seed_from_u64(15);
    let setup = TestSetup::new(&mut rng);
    let none: Vec<(String, Policy)> = Vec::new();
    assert!(matches!(Header::new(&setup.mpk, &none, &mut rng), Err(Error::ConstraintViolation)));
}

#[test]
fn new_header_refuses_a_repeated_identifier() {
    let mut rng = StdRng::seed_from_u64(16);
    let setup = TestSetup::new(&mut rng);
    let twice = vec![
        ("a".to_string(), Policy { timestamp: 1, con: vec![] }),
        ("b".to_string(), Policy { timestamp: 2, con: vec![] }),
        ("a".to_string(), Policy { timestamp: 3, con: vec![] }),
    ];
    assert!(matches!(Header::new(&setup.mpk, &twice, &mut rng), Err(Error::ConstraintViolation)));
}

#[test]
fn new_header_refuses_a_policy_without_canonical_encoding() {
    let mut rng = StdRng::seed_from_u64(17);
    let setup = TestSetup::new(&mut rng);
    let long = "x".repeat(70000);
    let policies =
        vec![("a".to_string(), Policy { timestamp: 1, con: vec![Attribute::new(&long, None)] })];
    assert!(matches!(
        Header::new(&setup.mpk, &policies, &mut rng),
        Err(Error::ConstraintViolation)
    ));
}

#[test]
fn msgpack_is_what_the_serializer_crate_writes() {
    for header in variants() {
        assert_eq!(msgpack(&header), reference_msgpack(&header));
    }
}

#[test]
fn json_is_what_the_serializer_crate_writes() {
    for header in variants() {
        assert_eq!(header.to_json_string().unwrap(), reference_json(&header));
    }
}

#[test]
fn msgpack_round_trips() {
    for header in variants() {
        let bytes = msgpack(&header);
        let back = Header::msgpack_from(&bytes).unwrap();
        assert_same(&back, &header);
    }
}

#[test]
fn json_round_trips() {
    for header in variants() {
        let text = header.to_json_string().unwrap();
        let back = Header::from_json_string(&text).unwrap();
        assert_same(&back, &header);
    }
}

#[test]
fn msgpack_of_a_small_header_byte_by_byte() {
    let header = Header {
        policies: vec![(
            "a".to_string(),
            RecipientHeader { policy: hidden(7, &["t"]), ct: [1; 284] },
        )],
        algo: Algorithm::Aes128Gcm { iv: [2; 16] },
        mode: Mode::InMemory { size: 300 },
    };
    let mut expected: Vec<u8> = vec![0x83, 0xa2, b'r', b's', 0x81, 0xa1, b'a', 0x82, 0xa1, b'p'];
    expected.extend_from_slice(&[0x82, 0xa9]);
    expected.extend_from_slice(b"timestamp");
    expected.push(7);
    expected.extend_from_slice(&[0xa3, b'c', b'o', b'n', 0x91, 0x82, 0xa4]);
    expected.extend_from_slice(b"type");
    expected.extend_from_slice(&[0xa1, b't', 0xa5]);
    expected.extend_from_slice(b"value");
    expected.push(0xc0);
    expected.extend_from_slice(&[0xa2, b'c', b't', 0xdc, 0x01, 0x1c]);
    expected.extend_from_slice(&[1; 284]);
    expected.extend_from_slice(&[0xa4, b'a', b'l', b'g', b'o', 0x81, 0xa9]);
    expected.extend_from_slice(b"Aes128Gcm");
    expected.extend_from_slice(&[0x81, 0xa2, b'i', b'v', 0x9f + 1]);
    expected.truncate(expected.len() - 1);
    expected.extend_from_slice(&[0xdc, 0x00, 0x10]);
    expected.extend_from_slice(&[2; 16]);
    expected.extend_from_slice(&[0xa4, b'm', b'o', b'd', b'e', 0x81, 0xa8]);
    expected.extend_from_slice(b"InMemory");
    expected.extend_from_slice(&[0x81, 0xa4, b's', b'i', b'z', b'e', 0xcd, 0x01, 0x2c]);
    assert_eq!(msgpack(&header), expected);
}

#[test]
fn json_of_a_small_header_letter_by_letter() {
    let header = Header {
        policies: vec![(
            "a\"b".to_string(),
            RecipientHeader { policy: hidden(7, &["t\u{1}", "é"]), ct: [1; 284] },
        )],
        algo: Algorithm::Aes128Gcm { iv: [2; 16] },
        mode: Mode::Streaming { segment_size: 65536, size_hint: (0, None) },
    };
    let ones = vec!["1"; 284].join(",");
    let twos = vec!["2"; 16].join(",");
    let expected = format!(
        "{{\"rs\":{{\"a\\\"b\":{{\"p\":{{\"timestamp\":7,\"con\":[{{\"type\":\"t\\u0001\",\"value\":null}},{{\"type\":\"é\",\"value\":null}}]}},\"ct\":[{}]}}}},\"algo\":{{\"Aes128Gcm\":{{\"iv\":[{}]}}}},\"mode\":{{\"Streaming\":{{\"segment_size\":65536,\"size_hint\":[0,null]}}}}}}",
        ones, twos
    );
    assert_eq!(header.to_json_string().unwrap(), expected);
}

#[test]
fn msgpack_is_appended_to_what_is_there() {
    let header = sample_header();
    let mut out = vec![1, 2, 3];
    header.msgpack_into(&mut out).unwrap();
    assert_eq!(&out[..3], &[1, 2, 3]);
    assert_eq!(&out[3..], &msgpack(&header)[..]);
}

#[test]
fn msgpack_reader_refuses_every_truncation_and_extension() {
    let bytes = msgpack(&sample_header());
    for len in 0..bytes.len() {
        assert!(matches!(Header::msgpack_from(&bytes[..len]), Err(Error::FormatViolation)));
    }
    let mut longer = bytes.clone();
    longer.push(0);
    assert!(matches!(Header::msgpack_from(&longer), Err(Error::FormatViolation)));
}

#[test]
fn msgpack_reader_refuses_an_unknown_cipher() {
    let bytes = msgpack(&sample_header());
    let at = bytes.windows(9).position(|w| w == b"Aes128Gcm").unwrap();
    let mut other = bytes.clone();
    other[at + 6] = b'X';
    assert!(matches!(Header::msgpack_from(&other), Err(Error::FormatViolation)));
}

#[test]
fn msgpack_reader_refuses_an_unknown_mode() {
    let bytes = msgpack(&sample_header());
    let at = bytes.windows(9).position(|w| w == b"Streaming").unwrap();
    let mut other = bytes.clone();
    other[at] = b's';
    assert!(matches!(Header::msgpack_from(&other), Err(Error::FormatViolation)));
}

#[test]
fn msgpack_reader_refuses_a_ciphertext_of_another_length() {
    let header = Header {
        policies: vec![("a".to_string(), RecipientHeader { policy: hidden(7, &[]), ct: [1; 284] })],
        algo: Algorithm::Aes128Gcm { iv: [2; 16] },
        mode: Mode::InMemory { size: 3 },
    };
    let bytes = msgpack(&header);
    let at = bytes.windows(3).position(|w| w == [0xdc, 0x01, 0x1c]).unwrap();
    // announce and carry one byte less
    let mut shorter = bytes.clone();
    shorter[at + 2] = 0x1b;
    shorter.remove(at + 3);
    assert!(matches!(Header::msgpack_from(&shorter), Err(Error::FormatViolation)));
    // announce and carry one byte more
    let mut longer = bytes.clone();
    longer[at + 2] = 0x1d;
    longer.insert(at + 3, 1);
    assert!(matches!(Header::msgpack_from(&longer), Err(Error::FormatViolation)));
}

#[test]
fn msgpack_reader_refuses_a_value_in_a_policy() {
    let mut header = sample_header();
    header.policies[1].1.policy.con[0] = Attribute::new("email", Some("a@ex"));
    // the writer writes what it is given; the reader holds the header to its invariant
    let bytes = msgpack(&header);
    assert!(matches!(Header::msgpack_from(&bytes), Err(Error::FormatViolation)));
    let json = header.to_json_string().unwrap();
    assert!(matches!(Header::from_json_string(&json), Err(Error::FormatViolation)));
}

#[test]
fn readers_refuse_a_repeated_identifier() {
    let mut header = sample_header();
    header.policies[2].0 = "alice".to_string();
    assert!(matches!(Header::msgpack_from(&msgpack(&header)), Err(Error::FormatViolation)));
    let json = header.to_json_string().unwrap();
    assert!(matches!(Header::from_json_string(&json), Err(Error::FormatViolation)));
}

#[test]
fn readers_refuse_a_header_without_recipients() {
    let mut header = sample_header();
    header.policies.clear();
    assert!(matches!(Header::msgpack_from(&msgpack(&header)), Err(Error::FormatViolation)));
    let json = header.to_json_string().unwrap();
    assert!(matches!(Header::from_json_string(&json), Err(Error::FormatViolation)));
}

#[test]
fn msgpack_reader_refuses_a_longer_form_of_a_number() {
    let header = Header {
        policies: vec![("a".to_string(), RecipientHeader { policy: hidden(7, &[]), ct: [1; 284] })],
        algo: Algorithm::Aes128Gcm { iv: [2; 16] },
        mode: Mode::InMemory { size: 3 },
    };
    let bytes = msgpack(&header);
    assert_eq!(*bytes.last().unwrap(), 3);
    let mut wide = bytes.clone();
    wide.pop();
    wide.extend_from_slice(&[0xcc, 3]);
    assert!(matches!(Header::msgpack_from(&wide), Err(Error::FormatViolation)));
}

#[test]
fn json_reader_refuses_white_space_and_other_orders() {
    let text = sample_header().to_json_string().unwrap();
    assert!(Header::from_json_string(&text).is_ok());
    assert!(matches!(Header::from_json_string(&format!(" {}", text)), Err(Error::FormatViolation)));
    assert!(matches!(Header::from_json_string(&format!("{} ", text)), Err(Error::FormatViolation)));
    assert!(matches!(
        Header::from_json_string(&text.replace("\"size_hint\":[0,null]", "\"size_hint\":[0, null]")),
        Err(Error::FormatViolation)
    ));
    assert!(matches!(
        Header::from_json_string(&text.replace("\"size_hint\":[0,null]", "\"size_hint\":[00,null]")),
        Err(Error::FormatViolation)
    ));
    assert!(matches!(Header::from_json_string(""), Err(Error::FormatViolation)));
    assert!(matches!(Header::from_json_string("{}"), Err(Error::FormatViolation)));
}

#[test]
fn json_reader_refuses_every_truncation() {
    let header = Header {
        policies: vec![("a".to_string(), RecipientHeader { policy: hidden(7, &["t"]), ct: [1; 284] })],
        algo: Algorithm::Aes128Gcm { iv: [2; 16] },
        mode: Mode::InMemory { size: 3 },
    };
    let text = header.to_json_string().unwrap();
    for len in 0..text.len() {
        assert!(matches!(Header::from_json_string(&text[..len]), Err(Error::FormatViolation)));
    }
}

#[test]
fn json_reader_refuses_numbers_that_do_not_fit() {
    let header = Header {
        policies: vec![("a".to_string(), RecipientHeader { policy: hidden(7, &[]), ct: [1; 284] })],
        algo: Algorithm::Aes128Gcm { iv: [2; 16] },
        mode: Mode::InMemory { size: 3 },
    };
    let text = header.to_json_string().unwrap();
    let huge = text.replace("\"size\":3", "\"size\":18446744073709551616");
    assert!(matches!(Header::from_json_string(&huge), Err(Error::FormatViolation)));
    let max = text.replace("\"size\":3", "\"size\":18446744073709551615");
    assert_eq!(Header::from_json_string(&max).unwrap().mode, Mode::InMemory { size: u64::MAX });
    let byte = text.replace("\"iv\":[2,", "\"iv\":[256,");
    assert!(matches!(Header::from_json_string(&byte), Err(Error::FormatViolation)));
}

#[test]
fn with_mode_and_with_algo_change_only_their_field() {
    let header = sample_header();
    let changed = header
        .with_mode(Mode::InMemory { size: 9 })
        .with_algo(Algorithm::Aegis128 { iv: [3; 16] });
    assert_eq!(changed.mode, Mode::InMemory { size: 9 });
    assert_eq!(changed.algo, Algorithm::Aegis128 { iv: [3; 16] });
    assert_eq!(changed.policies.len(), 3);
    assert_eq!(changed.policies[1].0, "alice");
}

#[test]
fn get_finds_a_recipient_by_identifier() {
    let header = sample_header();
    assert_eq!(header.get("alice").unwrap().ct, ct(1));
    assert_eq!(header.get("").unwrap().ct, ct(77));
    assert!(header.get("carol").is_none());
    assert!(header.get("Alice").is_none());
}

#[test]
fn transcode_gives_the_json_of_the_header() {
    for header in variants() {
        let bytes = msgpack(&header);
        assert_eq!(Header::transcode(&bytes).unwrap(), header.to_json_string().unwrap());
        assert_eq!(Header::transcode(&bytes).unwrap(), reference_json(&header));
    }
    assert!(matches!(Header::transcode(&[0x80]), Err(Error::FormatViolation)));
    assert!(matches!(Header::transcode(&[]), Err(Error::FormatViolation)));
}

#[test]
fn clone_of_a_header_is_the_same_header() {
    let header = sample_header();
    let copy = header.clone();
    assert_same(&copy, &header);
    assert_eq!(msgpack(&copy), msgpack(&header));
}

#[test]
fn new_header_stays_within_the_bound_on_its_length() {
    let mut rng = StdRng::seed_from_u64(31);
    let setup = TestSetup::new(&mut rng);
    // two hundred bytes, six hundred for each recipient, twenty-four for each
    // attribute, and the bytes of identifiers and attribute types
    let mut bound = 200;
    for (id, policy) in &setup.policies {
        bound += 600 + id.len() + 40;
        for attr in &policy.con {
            bound += 24 + attr.atype.len();
        }
    }
    for _ in 0..20 {
        let (header, _) = Header::new(&setup.mpk, &setup.policies, &mut rng).unwrap();
        assert!(msgpack(&header).len() <= bound);
    }
}

#[test]
fn json_reader_refuses_escapes_that_a_writer_would_not_write() {
    let text = sample_header().to_json_string().unwrap();
    assert!(text.contains("\"alice\""));
    for other in ["\"al\\u0069ce\"", "\"al\\ice\"", "\"alice\\/\"", "\"ali\\u00e9\""] {
        let changed = text.replacen("\"alice\"", other, 1);
        assert!(matches!(Header::from_json_string(&changed), Err(Error::FormatViolation)));
    }
    // the escapes that a writer writes are read
    let header = Header {
        policies: vec![(
            "quote\" slash\\ bell\u{7} tab\t".to_string(),
            RecipientHeader { policy: hidden(1, &["line\nfeed\r"]), ct: [9; 284] },
        )],
        algo: Algorithm::Aes128Gcm { iv: [1; 16] },
        mode: Mode::default(),
    };
    let text = header.to_json_string().unwrap();
    assert!(text.contains("quote\\\" slash\\\\ bell\\u0007 tab\\t"));
    assert_same(&Header::from_json_string(&text).unwrap(), &header);
}

#[test]
fn default_cipher_is_aes_gcm_under_a_drawn_vector() {
    assert_eq!(aes128gcm_with([7; 16]), Algorithm::Aes128Gcm { iv: [7; 16] });
    let iv = [0, 1, 2, 3, 4, 5, 6, 7, 8, 9, 10, 11, 12, 13, 14, 15];
    assert_eq!(aes128gcm_with(iv), Algorithm::Aes128Gcm { iv });
    let mut rng = StdRng::seed_from_u64(51);
    let a = default_algo(&mut rng);
    let b = default_algo(&mut rng);
    assert!(matches!(a, Algorithm::Aes128Gcm { .. }));
    assert!(matches!(b, Algorithm::Aes128Gcm { .. }));
    assert_ne!(a, b);
    // the same generator state draws the same vector
    let mut again = StdRng::seed_from_u64(51);
    assert_eq!(default_algo(&mut again), a);
}

#[test]
fn msgpack_without_the_mode_reads_in_the_default_mode() {
    for header in variants() {
        let short = reference_msgpack_without_mode(&header);
        assert_eq!(short[0], 0x82);
        let read = Header::msgpack_from(&short).unwrap();
        assert_same(&read, &header.clone().with_mode(Mode::default()));
        assert_eq!(read.mode, Mode::Streaming { segment_size: 65536, size_hint: (0, None) });
    }
}

#[test]
fn json_without_the_mode_reads_in_the_default_mode() {
    for header in variants() {
        let short = reference_json_without_mode(&header);
        assert!(!short.contains("mode"));
        let read = Header::from_json_string(&short).unwrap();
        assert_same(&read, &header.clone().with_mode(Mode::default()));
        assert_eq!(read.mode, Mode::Streaming { segment_size: 65536, size_hint: (0, None) });
    }
}

#[test]
fn a_header_without_the_mode_is_written_back_in_full() {
    let header = sample_header();
    let read = Header::msgpack_from(&reference_msgpack_without_mode(&header)).unwrap();
    assert_eq!(msgpack(&read), msgpack(&header));
    assert_eq!(
        Header::transcode(&reference_msgpack_without_mode(&header)).unwrap(),
        header.to_json_string().unwrap()
    );
}

#[test]
fn readers_refuse_what_is_neither_the_full_form_nor_the_one_without_mode() {
    let header = sample_header();
    let full = msgpack(&header);
    let short = reference_msgpack_without_mode(&header);
    // two entries announced, three written; three announced, two written
    let mut two = full.clone();
    two[0] = 0x82;
    assert!(matches!(Header::msgpack_from(&two), Err(Error::FormatViolation)));
    let mut three = short.clone();
    three[0] = 0x83;
    assert!(matches!(Header::msgpack_from(&three), Err(Error::FormatViolation)));
    for cut in 0..short.len() {
        assert!(matches!(Header::msgpack_from(&short[..cut]), Err(Error::FormatViolation)));
    }
    let text = reference_json_without_mode(&header);
    assert!(matches!(
        Header::from_json_string(&text[..text.len() - 1]),
        Err(Error::FormatViolation)
    ));
    assert!(matches!(
        Header::from_json_string(&format!("{},", &text[..text.len() - 1])),
        Err(Error::FormatViolation)
    ));
    assert!(matches!(
        Header::from_json_string(&text.replace("\"algo\"", "\"mode\"")),
        Err(Error::FormatViolation)
    ));
}

#[test]
fn new_header_refuses_recipients_out_of_order() {
    let mut rng = StdRng::seed_from_u64(18);
    let setup = TestSetup::new(&mut rng);
    let swapped = vec![setup.policies[1].clone(), setup.policies[0].clone()];
    assert!(matches!(Header::new(&setup.mpk, &swapped, &mut rng), Err(Error::ConstraintViolation)));
    let unordered = vec![
        ("b".to_string(), Policy { timestamp: 1, con: vec![] }),
        ("a".to_string(), Policy { timestamp: 2, con: vec![] }),
    ];
    assert!(matches!(
        Header::new(&setup.mpk, &unordered, &mut rng),
        Err(Error::ConstraintViolation)
    ));
    let ordered = vec![
        ("".to_string(), Policy { timestamp: 1, con: vec![] }),
        ("B".to_string(), Policy { timestamp: 1, con: vec![] }),
        ("a".to_string(), Policy { timestamp: 2, con: vec![] }),
        ("ab".to_string(), Policy { timestamp: 2, con: vec![] }),
        ("b".to_string(), Policy { timestamp: 2, con: vec![] }),
        ("é".to_string(), Policy { timestamp: 2, con: vec![] }),
    ];
    let (header, _) = Header::new(&setup.mpk, &ordered, &mut rng).unwrap();
    assert_eq!(header.recipient_ids(), vec!["", "B", "a", "ab", "b", "é"]);
}

#[test]
fn new_header_writes_its_recipients_as_an_ordered_map_holds_them() {
    let mut rng = StdRng::seed_from_u64(19);
    let setup = TestSetup::new(&mut rng);
    let (header, _) = Header::new(&setup.mpk, &setup.policies, &mut rng).unwrap();
    let keys: BTreeMap<String, ()> = header.policies.iter().map(|(id, _)| (id.clone(), ())).collect();
    let in_map_order: Vec<String> = keys.into_keys().collect();
    assert_eq!(header.recipient_ids(), in_map_order);
    assert_eq!(msgpack(&header), reference_msgpack(&header));
}

#[test]
fn readers_refuse_recipients_out_of_order() {
    let mut header = sample_header();
    header.policies.swap(0, 1);
    assert!(matches!(Header::msgpack_from(&msgpack(&header)), Err(Error::FormatViolation)));
    let json = header.to_json_string().unwrap();
    assert!(matches!(Header::from_json_string(&json), Err(Error::FormatViolation)));
}

#[test]
fn a_header_that_was_refused_leaves_the_generator_alone() {
    let mut rng = StdRng::seed_from_u64(20);
    let setup = TestSetup::new(&mut rng);
    let mut untouched = rng.clone();
    let none: Vec<(String, Policy)> = Vec::new();
    assert!(Header::new(&setup.mpk, &none, &mut rng).is_err());
    let twice = vec![setup.policies[0].clone(), setup.policies[0].clone()];
    assert!(Header::new(&setup.mpk, &twice, &mut rng).is_err());
    let long = "x".repeat(70000);
    let unencodable =
        vec![("a".to_string(), Policy { timestamp: 1, con: vec![Attribute::new(&long, None)] })];
    assert!(Header::new(&setup.mpk, &unencodable, &mut rng).is_err());
    assert_eq!(rng.next_u64(), untouched.next_u64());
    assert!(Header::new(&setup.mpk, &setup.policies, &mut rng).is_ok());
    assert_ne!(rng.next_u64(), untouched.next_u64());
}

fn find(haystack: &[u8], needle: &[u8]) -> usize {
    haystack.windows(needle.len()).rposition(|w| w == needle).unwrap()
}

#[test]
fn msgpack_reader_refuses_other_orders_unknown_fields_and_arrays() {
    let header = sample_header();
    let bytes = msgpack(&header);
    let algo_at = find(&bytes, &[0xa4, b'a', b'l', b'g', b'o']);
    let mode_at = find(&bytes, &[0xa4, b'm', b'o', b'd', b'e']);
    let rs = &bytes[1..algo_at];
    let algo = &bytes[algo_at..mode_at];
    let mode = &bytes[mode_at..];
    assert_eq!(&rs[..3], &[0xa2, b'r', b's']);

    let mut same = vec![0x83];
    same.extend_from_slice(rs);
    same.extend_from_slice(algo);
    same.extend_from_slice(mode);
    assert!(Header::msgpack_from(&same).is_ok());

    let mut reordered = vec![0x83];
    reordered.extend_from_slice(algo);
    reordered.extend_from_slice(rs);
    reordered.extend_from_slice(mode);
    assert!(matches!(Header::msgpack_from(&reordered), Err(Error::FormatViolation)));

    let mut mode_first = vec![0x83];
    mode_first.extend_from_slice(rs);
    mode_first.extend_from_slice(mode);
    mode_first.extend_from_slice(algo);
    assert!(matches!(Header::msgpack_from(&mode_first), Err(Error::FormatViolation)));

    let mut unknown = vec![0x84];
    unknown.extend_from_slice(rs);
    unknown.extend_from_slice(algo);
    unknown.extend_from_slice(mode);
    unknown.extend_from_slice(&[0xa1, b'x', 0x01]);
    assert!(matches!(Header::msgpack_from(&unknown), Err(Error::FormatViolation)));

    let mut twice = vec![0x84];
    twice.extend_from_slice(rs);
    twice.extend_from_slice(algo);
    twice.extend_from_slice(mode);
    twice.extend_from_slice(mode);
    assert!(matches!(Header::msgpack_from(&twice), Err(Error::FormatViolation)));

    let mut array = vec![0x93];
    array.extend_from_slice(&rs[3..]);
    array.extend_from_slice(&algo[5..]);
    array.extend_from_slice(&mode[5..]);
    assert!(matches!(Header::msgpack_from(&array), Err(Error::FormatViolation)));
}

#[test]
fn json_reader_refuses_other_orders_and_unknown_fields() {
    let header = sample_header();
    let text = header.to_json_string().unwrap();
    let algo_at = text.rfind(",\"algo\":").unwrap();
    let mode_at = text.rfind(",\"mode\":").unwrap();
    let rs = &text[1..algo_at];
    let algo = &text[algo_at + 1..mode_at];
    let mode = &text[mode_at + 1..text.len() - 1];
    assert!(rs.starts_with("\"rs\":"));

    assert!(Header::from_json_string(&format!("{{{rs},{algo},{mode}}}")).is_ok());
    assert!(Header::from_json_string(&format!("{{{rs},{algo}}}")).is_ok());
    for other in [
        format!("{{{algo},{rs},{mode}}}"),
        format!("{{{rs},{mode},{algo}}}"),
        format!("{{{mode},{rs},{algo}}}"),
        format!("{{{algo},{rs}}}"),
        format!("{{{rs},{mode}}}"),
        format!("{{{rs}}}"),
        format!("{{{rs},{algo},{mode},\"x\":1}}"),
        format!("{{{rs},{algo},\"x\":1}}"),
        format!("{{{rs},{algo},{mode},{mode}}}"),
        format!("{{{rs},{algo},}}"),
        format!("[{rs},{algo},{mode}]"),
    ] {
        assert!(matches!(Header::from_json_string(&other), Err(Error::FormatViolation)), "{other}");
    }
}

use irmaseal::error::Error;
use irmaseal::identity::{Attribute, Policy};
use sha3::{Digest, Sha3_512};

fn policy(timestamp: u64, con: Vec<Attribute>) -> Policy {
    Policy { timestamp, con }
}

#[test]
fn canonical_bytes_of_disclosed_attribute() {
    let p = policy(1700000000, vec![Attribute::new("email", Some("a@ex"))]);
    let bytes = p.canonical_bytes().unwrap();
    let mut expected = vec![0u8, 0, 0, 0, 0x65, 0x53, 0xf1, 0x00];
    expected.extend_from_slice(&[0, 5]);
    expected.extend_from_slice(b"email");
    expected.extend_from_slice(&[0, 4]);
    expected.extend_from_slice(b"a@ex");
    assert_eq!(bytes, expected);
}

#[test]
fn canonical_bytes_of_hidden_attribute() {
    let p = policy(1, vec![Attribute::new("t", None)]);
    let bytes = p.canonical_bytes().unwrap();
    assert_eq!(bytes, vec![0, 0, 0, 0, 0, 0, 0, 1, 0, 1, b't', 0xFF, 0xFF]);
}

#[test]
fn canonical_bytes_of_empty_policy() {
    let p = policy(0x0102030405060708, vec![]);
    assert_eq!(p.canonical_bytes().unwrap(), vec![1, 2, 3, 4, 5, 6, 7, 8]);
}

#[test]
fn canonical_bytes_keep_the_order_of_attributes() {
    let a = policy(7, vec![Attribute::new("x", Some("1")), Attribute::new("y", Some("2"))]);
    let b = policy(7, vec![Attribute::new("y", Some("2")), Attribute::new("x", Some("1"))]);
    assert_ne!(a.canonical_bytes().unwrap(), b.canonical_bytes().unwrap());
    assert_ne!(a.derive().unwrap(), b.derive().unwrap());
}

#[test]
fn canonical_bytes_count_utf8_bytes() {
    let p = policy(0, vec![Attribute::new("é", Some("ü€"))]);
    let bytes = p.canonical_bytes().unwrap();
    let mut expected = vec![0u8; 8];
    expected.extend_from_slice(&[0, 2, 0xc3, 0xa9]);
    expected.extend_from_slice(&[0, 5, 0xc3, 0xbc, 0xe2, 0x82, 0xac]);
    assert_eq!(bytes, expected);
}

#[test]
fn type_of_65535_bytes_is_encodable() {
    let long = "a".repeat(65535);
    let p = policy(0, vec![Attribute::new(&long, None)]);
    let bytes = p.canonical_bytes().unwrap();
    assert_eq!(bytes.len(), 8 + 2 + 65535 + 2);
    assert_eq!(&bytes[8..10], &[0xFF, 0xFF]);
}

#[test]
fn type_of_65536_bytes_is_refused() {
    let long = "a".repeat(65536);
    let p = policy(0, vec![Attribute::new(&long, None)]);
    assert_eq!(p.canonical_bytes(), Err(Error::ConstraintViolation));
    assert_eq!(p.derive(), Err(Error::ConstraintViolation));
}

#[test]
fn value_of_65534_bytes_is_encodable() {
    let long = "v".repeat(65534);
    let p = policy(0, vec![Attribute::new("t", Some(&long))]);
    let bytes = p.canonical_bytes().unwrap();
    assert_eq!(&bytes[11..13], &[0xFF, 0xFE]);
}

#[test]
fn value_of_65535_bytes_is_refused() {
    let long = "v".repeat(65535);
    let p = policy(0, vec![Attribute::new("t", Some(&long))]);
    assert_eq!(p.canonical_bytes(), Err(Error::ConstraintViolation));
}

#[test]
fn derive_is_the_sha3_512_of_the_canonical_bytes() {
    let p = policy(1700000000, vec![Attribute::new("email", Some("a@ex"))]);
    let id = p.derive().unwrap();
    let digest = Sha3_512::digest(p.canonical_bytes().unwrap());
    assert_eq!(&id[..], &digest[..]);
}

#[test]
fn identity_is_deterministic() {
    let a = policy(5, vec![Attribute::new("email", Some("a@ex"))]);
    let b = policy(5, vec![Attribute::new("email", Some("a@ex"))]);
    assert_eq!(a.canonical_bytes().unwrap(), b.canonical_bytes().unwrap());
    assert_eq!(a.derive().unwrap(), b.derive().unwrap());
}

#[test]
fn identity_depends_on_the_timestamp() {
    let a = policy(5, vec![Attribute::new("email", Some("a@ex"))]);
    let b = policy(6, vec![Attribute::new("email", Some("a@ex"))]);
    assert_ne!(a.derive().unwrap(), b.derive().unwrap());
}

#[test]
fn hiding_keeps_types_and_timestamp() {
    let p = policy(
        99,
        vec![Attribute::new("name", Some("john")), Attribute::new("email", Some("j@ex"))],
    );
    let hidden = p.to_hidden();
    assert_eq!(hidden.timestamp, 99);
    assert_eq!(hidden.con.len(), 2);
    assert_eq!(hidden.con[0], Attribute::new("name", None));
    assert_eq!(hidden.con[1], Attribute::new("email", None));
}

#[test]
fn hidden_policy_encodes_missing_values() {
    let p = policy(3, vec![Attribute::new("name", Some("john"))]);
    let bytes = p.to_hidden().canonical_bytes().unwrap();
    assert_eq!(bytes, vec![0, 0, 0, 0, 0, 0, 0, 3, 0, 4, b'n', b'a', b'm', b'e', 0xFF, 0xFF]);
}

#[test]
fn clone_of_policy_is_equal() {
    let p = policy(3, vec![Attribute::new("name", Some("john")), Attribute::new("x", None)]);
    assert_eq!(p.clone(), p);
    assert_eq!(p.to_hidden().clone(), p.to_hidden());
}

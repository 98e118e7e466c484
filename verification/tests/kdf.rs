use irmaseal::util::{derive_keys, str_lt, take16, SharedSecret};
use sha3::{Digest, Sha3_512};

#[test]
fn keys_are_taken_from_the_two_halves_of_the_digest() {
    let secret = SharedSecret([0x42u8; 32]);
    let keys = derive_keys(&secret);
    let digest = Sha3_512::digest([0x42u8; 32]);
    assert_eq!(&keys.aes_key[..], &digest[0..16]);
    assert_eq!(&keys.mac_key[..], &digest[32..48]);
}

#[test]
fn keys_of_the_zero_secret() {
    let keys = derive_keys(&SharedSecret([0u8; 32]));
    let digest = Sha3_512::digest([0u8; 32]);
    assert_eq!(&keys.aes_key[..], &digest[..16]);
    assert_ne!(keys.aes_key, keys.mac_key);
    assert_ne!(keys.aes_key, [0u8; 16]);
}

#[test]
fn different_secrets_give_different_keys() {
    let a = derive_keys(&SharedSecret([1u8; 32]));
    let b = derive_keys(&SharedSecret([2u8; 32]));
    assert_ne!(a.aes_key, b.aes_key);
    assert_ne!(a.mac_key, b.mac_key);
}

#[test]
fn take16_copies_a_window() {
    let src: Vec<u8> = (0u8..40).collect();
    assert_eq!(take16(&src, 0), [0, 1, 2, 3, 4, 5, 6, 7, 8, 9, 10, 11, 12, 13, 14, 15]);
    assert_eq!(
        take16(&src, 24),
        [24, 25, 26, 27, 28, 29, 30, 31, 32, 33, 34, 35, 36, 37, 38, 39]
    );
}

#[test]
fn texts_are_ordered_as_strings_are() {
    let texts = ["", "a", "A", "ab", "abc", "abd", "b", "é", "z", "a\u{0}", "ab ", "\u{10FFFF}", "~"];
    for a in texts {
        for b in texts {
            assert_eq!(str_lt(a, b), a < b, "{:?} {:?}", a, b);
        }
    }
    assert!(str_lt("", "a"));
    assert!(str_lt("a", "ab"));
    assert!(str_lt("B", "a"));
    assert!(!str_lt("a", "a"));
    assert!(!str_lt("b", "a"));
}

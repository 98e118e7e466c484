//! Sizes and magic values of the envelope format.

use vstd::prelude::*;

verus! {

/// The four bytes that open every envelope.
pub const PRELUDE: [u8; 4] = [0x14, 0x8A, 0x8E, 0xA7];

/// The format version this library writes and accepts.
pub const VERSION_V2: u16 = 2;

/// Largest header, in bytes, that a reader accepts.
pub const MAX_HEADER_SIZE: usize = 1048576;

/// Default number of plaintext bytes per segment.
pub const SYMMETRIC_CRYPTO_DEFAULT_CHUNK: u32 = 65536;

/// Size of an AES-128 key in bytes.
pub const KEY_SIZE: usize = 16;

/// Size of the MAC key in bytes.
pub const MAC_SIZE: usize = 16;

/// Size of the initialization vector carried in the header.
pub const IV_SIZE: usize = 16;

/// Number of leading IV bytes that form the per-stream nonce prefix.
pub const STREAM_NONCE_SIZE: usize = 7;

/// Size of a full AES-GCM nonce in bytes.
pub const NONCE_SIZE: usize = 12;

/// Size of the authentication tag that closes every segment.
pub const TAG_SIZE: usize = 16;

/// Size of a compressed master public key.
pub const PK_BYTES: usize = 672;

/// Size of a compressed master secret key.
pub const SK_BYTES: usize = 512;

/// Size of a compressed user secret key.
pub const USK_BYTES: usize = 576;

/// Size of a compressed multi-recipient ciphertext.
pub const CT_BYTES: usize = 284;

} // verus!

//! Identity-based encryption envelopes.
//!
//! A sender seals a payload for recipients that are named by attributes, not by
//! keys. The envelope carries a header, which holds for every recipient a hidden
//! policy and a ciphertext of the shared secret, and the payload as a stream of
//! authenticated segments. A recipient proves the attributes to a private key
//! generator, obtains a user secret key, and opens the envelope with it.
//!
//! # What is proved, and what is believed
//!
//! Everything in this crate is verified but the calls into the cryptographic
//! primitives and a few functions of the standard library. Those calls stand in
//! small functions that are marked `external_body`; each says in its
//! documentation which function it calls and what it claims of it:
//!
//! * [`kem`]: the CGW-KV scheme of the `ibe` crate, reached through byte
//!   encodings. What the scheme computes is named, not stated.
//! * [`cipher`]: AES-128-GCM and SHA3-512. The one fact claimed of the cipher
//!   is that opening undoes sealing.
//! * [`artifacts`]: the constant-time base64 codec. Claimed is that decoding
//!   undoes encoding.
//! * [`msgpack`]: `String::from_utf8`; [`util`]: the random initialization
//!   vector; [`cli`]: the system clock.
//!
//! The encodings of a header, binary and JSON, the canonical bytes of a policy,
//! the segmentation of the stream and the framing of the envelope are this
//! crate's own and are proved: a reader reads back what a writer wrote, and
//! accepts besides that only a header without its mode; a sealed stream opens to
//! what was sealed.

pub mod api;
pub mod artifacts;
pub mod bytes;
pub mod cipher;
pub mod cli;
pub mod constants;
pub mod error;
pub mod handlers;
pub mod identity;
pub mod json;
pub mod kem;
pub mod metadata;
pub mod msgpack;
pub mod seqs;
pub mod stream;
pub mod test_common;
pub mod util;

pub use crate::api::{KeyRequest, KeyResponse, Parameters};
pub use crate::artifacts::{PublicKey, SecretKey, UserSecretKey};
pub use crate::error::Error;
pub use crate::identity::{Attribute, HiddenPolicy, Policy};
pub use crate::metadata::{Algorithm, Header, Mode, RecipientHeader};
pub use crate::stream::sealer::seal;
pub use crate::stream::unsealer::{unseal, Unsealer};
pub use crate::util::{KeySet, SharedSecret};

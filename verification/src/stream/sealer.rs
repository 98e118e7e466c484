//! Sealing an envelope.
//!
//! An envelope is the prelude, the format version in two big-endian bytes, the
//! length of the header in four big-endian bytes, the header, and the sealed
//! stream of the payload.

use crate::artifacts::PublicKey;
use crate::bytes::{extend_bytes, push_be16, push_be32, spec_be16, spec_be32};
use crate::constants::{MAX_HEADER_SIZE, PRELUDE, VERSION_V2};
use crate::error::Error;
use crate::identity::Policy;
use crate::metadata::ser::{header_is_wf, spec_decodes, spec_msgpack, spec_msgpack_fits};
use crate::metadata::size::{lemma_header_bound, spec_header_bound};
use crate::metadata::{
    policies_view,
    spec_header_matches,
    spec_header_wf,
    spec_default_mode,
    spec_policies_sealable,
    Algorithm,
    Header,
    HeaderView,
    Mode,
};
use crate::stream::unsealer::{
    lemma_preamble_is_read,
    lemma_recipient_opens,
    spec_header_end,
    spec_recovers,
    spec_unseal_envelope,
};
use crate::stream::{
    spec_open_stream,
    spec_seal_stream,
    spec_sealed_len,
    spec_stream_fits,
    StreamSealer,
};
use crate::util::{derive_keys, spec_aes_key, SharedSecret};
use rand::rngs::StdRng;
use vstd::prelude::*;

verus! {

/// What stands before the sealed stream: prelude, version, header length, header.
pub open spec fn spec_preamble(header_bytes: Seq<u8>) -> Seq<u8> {
    PRELUDE@ + spec_be16(VERSION_V2) + spec_be32(header_bytes.len() as u32) + header_bytes
}

/// Whether the header can open an envelope: it is well formed, and can be
/// written in no more bytes than a reader accepts.
pub open spec fn spec_header_sealable(h: HeaderView) -> bool {
    spec_header_wf(h) && spec_msgpack_fits(h) && spec_msgpack(h).len() <= MAX_HEADER_SIZE
}

/// The initialization vector and segment size under which the header has the
/// payload sealed, if it names the cipher and the mode that this library seals
/// with: AES-128-GCM, streaming, in segments of at least one byte.
pub open spec fn spec_stream_params(h: HeaderView) -> Option<(Seq<u8>, int)> {
    match (h.algo, h.mode) {
        (Algorithm::Aes128Gcm { iv }, Mode::Streaming { segment_size, size_hint }) => if segment_size
            > 0 {
            Some((iv@, segment_size as int))
        } else {
            None
        },
        _ => None,
    }
}

/// The envelope of a payload under a header and a shared secret.
pub open spec fn spec_envelope(h: HeaderView, secret: Seq<u8>, payload: Seq<u8>) -> Seq<u8>
    recommends
        spec_stream_params(h) is Some,
{
    let (iv, seg) = spec_stream_params(h)->Some_0;
    spec_preamble(spec_msgpack(h)) + spec_seal_stream(spec_aes_key(secret), iv, seg, payload)
}

/// Whether a payload of `len` bytes can be sealed under the header.
pub open spec fn spec_can_seal(h: HeaderView, len: int) -> bool {
    &&& spec_header_sealable(h)
    &&& spec_stream_params(h) matches Some((iv, seg))
    &&& spec_stream_fits(seg, len)
}

/// The stream parameters of a header, as values.
pub fn stream_params(header: &Header) -> (params: Option<([u8; 16], u32)>)
    ensures
        match params {
            Some((iv, seg)) => spec_stream_params(header@) == Some((iv@, seg as int)),
            None => spec_stream_params(header@) is None,
        },
{
    match (header.algo, header.mode) {
        (Algorithm::Aes128Gcm { iv }, Mode::Streaming { segment_size, size_hint }) => {
            if segment_size > 0 {
                Some((iv, segment_size))
            } else {
                None
            }
        },
        _ => None,
    }
}

/// Writes what stands before the sealed stream behind what `out` holds. It fails
/// with `ConstraintViolation`, and leaves `out` as it was, exactly when the
/// header is not well formed, cannot be written, or takes more bytes than a
/// reader accepts.
pub fn write_preamble(header: &Header, out: &mut Vec<u8>) -> (res: Result<(), Error>)
    ensures
        match res {
            Ok(_) => spec_header_sealable(header@) && final(out)@ == old(out)@ + spec_preamble(
                spec_msgpack(header@),
            ),
            Err(e) => {
                &&& e == Error::ConstraintViolation
                &&& !spec_header_sealable(header@)
                &&& final(out)@ == old(out)@
            },
        },
{
    let ghost before = out@;
    if !header_is_wf(header) {
        return Err(Error::ConstraintViolation);
    }
    let mut header_bytes: Vec<u8> = Vec::new();
    match header.msgpack_into(&mut header_bytes) {
        Err(e) => {
            return Err(e);
        },
        Ok(_) => {},
    }
    assert(header_bytes@ =~= spec_msgpack(header@));
    if header_bytes.len() > MAX_HEADER_SIZE {
        return Err(Error::ConstraintViolation);
    }
    extend_bytes(out, PRELUDE.as_slice());
    push_be16(out, VERSION_V2);
    push_be32(out, header_bytes.len() as u32);
    extend_bytes(out, header_bytes.as_slice());
    assert(out@ =~= before + spec_preamble(spec_msgpack(header@)));
    Ok(())
}

/// Seals an envelope whose payload arrives piece by piece.
pub struct Sealer {
    inner: StreamSealer,
    preamble: Ghost<Seq<u8>>,
}

impl Sealer {
    /// The sealer's invariant.
    pub closed spec fn wf(&self) -> bool {
        self.inner.wf()
    }

    /// What opens the envelope, before the sealed stream.
    pub closed spec fn preamble(&self) -> Seq<u8> {
        self.preamble@
    }

    /// The cipher key of the stream.
    pub closed spec fn key(&self) -> Seq<u8> {
        self.inner.key()
    }

    /// The initialization vector of the stream.
    pub closed spec fn iv(&self) -> Seq<u8> {
        self.inner.iv()
    }

    /// The segment size of the stream.
    pub closed spec fn segment_size(&self) -> int {
        self.inner.segment_size()
    }

    /// The payload taken in so far.
    pub closed spec fn consumed(&self) -> Seq<u8> {
        self.inner.consumed()
    }

    /// The sealed stream handed out so far.
    pub closed spec fn produced(&self) -> Seq<u8> {
        self.inner.produced()
    }

    /// Starts an envelope under a header and the secret that was encapsulated for
    /// it, and returns what opens the envelope. It fails with
    /// `ConstraintViolation` exactly when the header is not sealable or names
    /// another cipher or mode than AES-128-GCM in streaming mode.
    pub fn new(header: &Header, secret: &SharedSecret) -> (res: Result<(Sealer, Vec<u8>), Error>)
        ensures
            match res {
                Ok((sealer, preamble)) => {
                    &&& spec_header_sealable(header@)
                    &&& spec_stream_params(header@) == Some((sealer.iv(), sealer.segment_size()))
                    &&& sealer.wf()
                    &&& sealer.key() == spec_aes_key(secret.0@)
                    &&& sealer.consumed() == Seq::<u8>::empty()
                    &&& sealer.produced() == Seq::<u8>::empty()
                    &&& preamble@ == spec_preamble(spec_msgpack(header@))
                    &&& sealer.preamble() == preamble@
                },
                Err(e) => e == Error::ConstraintViolation && !(spec_header_sealable(header@)
                    && spec_stream_params(header@) is Some),
            },
    {
        let (iv, seg) = match stream_params(header) {
            Some(p) => p,
            None => {
                return Err(Error::ConstraintViolation);
            },
        };
        let mut preamble: Vec<u8> = Vec::new();
        match write_preamble(header, &mut preamble) {
            Err(e) => {
                return Err(e);
            },
            Ok(_) => {},
        }
        assert(preamble@ =~= spec_preamble(spec_msgpack(header@)));
        let keys = derive_keys(secret);
        match StreamSealer::new(keys.aes_key, iv, seg) {
            Err(e) => Err(e),
            Ok(inner) => Ok((Sealer { inner, preamble: Ghost(preamble@) }, preamble)),
        }
    }

    /// Takes the next piece of the payload and returns the sealed segments that it
    /// completes. It fails with `ConstraintViolation` exactly when the payload
    /// has grown to more full segments than a stream can number.
    pub fn update(&mut self, chunk: &[u8]) -> (res: Result<Vec<u8>, Error>)
        requires
            old(self).wf(),
        ensures
            final(self).wf(),
            final(self).key() == old(self).key(),
            final(self).iv() == old(self).iv(),
            final(self).segment_size() == old(self).segment_size(),
            final(self).preamble() == old(self).preamble(),
            match res {
                Ok(out) => {
                    &&& spec_stream_fits(
                        old(self).segment_size(),
                        (old(self).consumed().len() + chunk@.len()) as int,
                    )
                    &&& final(self).consumed() == old(self).consumed() + chunk@
                    &&& final(self).produced() == old(self).produced() + out@
                    &&& final(self).produced().len() == ((final(self).consumed().len() as int)
                        / final(self).segment_size()) * (final(self).segment_size() + 16)
                },
                Err(e) => e == Error::ConstraintViolation && !spec_stream_fits(
                    old(self).segment_size(),
                    (old(self).consumed().len() + chunk@.len()) as int,
                ),
            },
    {
        self.inner.update(chunk)
    }

    /// Seals what is left as the final segment. Preamble, the stream handed out
    /// before, and these bytes are the envelope of the whole payload; its stream
    /// opens to the payload again.
    pub fn finish(self) -> (out: Vec<u8>)
        requires
            self.wf(),
        ensures
            out@.len() == (self.consumed().len() as int) % self.segment_size() + 16,
            (self.produced() + out@).len() == spec_sealed_len(
                self.segment_size(),
                self.consumed().len() as int,
            ),
            self.produced() + out@ == spec_seal_stream(
                self.key(),
                self.iv(),
                self.segment_size(),
                self.consumed(),
            ),
            spec_open_stream(self.key(), self.iv(), self.segment_size(), self.produced() + out@)
                == Some(self.consumed()),
    {
        self.inner.finish()
    }
}

/// The length of the envelope of a payload of `len` bytes under the header: ten
/// bytes before the header, the header, and the sealed stream.
pub open spec fn spec_envelope_len(h: HeaderView, len: int) -> int
    recommends
        spec_stream_params(h) is Some,
{
    10 + spec_msgpack(h).len() + spec_sealed_len(spec_stream_params(h)->Some_0.1, len)
}

/// What holds of an envelope that was sealed under a header and a secret: it is
/// the preamble of the header and the sealed stream of the payload, and has the
/// length that follows from theirs; a reader finds the header in it, and it
/// decodes to the header; and every recipient who recovers the secret from the
/// header opens the envelope to the payload.
pub open spec fn spec_sealed(
    envelope: Seq<u8>,
    h: HeaderView,
    secret: Seq<u8>,
    payload: Seq<u8>,
) -> bool {
    &&& spec_can_seal(h, payload.len() as int)
    &&& envelope == spec_envelope(h, secret, payload)
    &&& envelope.len() == spec_envelope_len(h, payload.len() as int)
    &&& spec_header_end(envelope) == Ok::<int, Error>(10 + spec_msgpack(h).len() as int)
    &&& spec_decodes(envelope.subrange(10, 10 + spec_msgpack(h).len() as int), h)
    &&& forall|id: Seq<char>, usk: Seq<u8>| #[trigger]
        spec_recovers(h, id, usk, secret) ==> spec_unseal_envelope(envelope, h, id, usk) == Ok::<
            Seq<u8>,
            Error,
        >(payload)
}

/// Seals a payload under a header and the secret that was encapsulated for it. It
/// fails with `ConstraintViolation` exactly when the payload cannot be sealed
/// under the header. Every recipient who recovers the secret from the header
/// opens the envelope to the payload again.
pub fn seal_with(header: &Header, secret: &SharedSecret, payload: &[u8]) -> (res: Result<
    Vec<u8>,
    Error,
>)
    ensures
        match res {
            Ok(envelope) => spec_sealed(envelope@, header@, secret.0@, payload@),
            Err(e) => e == Error::ConstraintViolation && !spec_can_seal(
                header@,
                payload@.len() as int,
            ),
        },
{
    match Sealer::new(header, secret) {
        Err(e) => Err(e),
        Ok((sealer, preamble)) => {
            let mut sealer = sealer;
            match sealer.update(payload) {
                Err(e) => Err(e),
                Ok(head) => {
                    let ghost produced = sealer.produced();
                    let ghost consumed = sealer.consumed();
                    let tail = sealer.finish();
                    let mut envelope = preamble;
                    extend_bytes(&mut envelope, head.as_slice());
                    extend_bytes(&mut envelope, tail.as_slice());
                    proof {
                        assert(consumed =~= payload@);
                        let h = header@;
                        let pre = spec_preamble(spec_msgpack(h));
                        let stream = produced + tail@;
                        assert(envelope@ =~= pre + stream);
                        lemma_preamble_is_read(spec_msgpack(h), stream);
                        assert forall|id: Seq<char>, usk: Seq<u8>| #[trigger]
                            spec_recovers(
                                h,
                                id,
                                usk,
                                secret.0@,
                            ) implies spec_unseal_envelope(envelope@, h, id, usk) == Ok::<
                            Seq<u8>,
                            Error,
                        >(payload@) by {
                            lemma_recipient_opens(h, id, usk, secret.0@, stream, payload@);
                        }
                    }
                    Ok(envelope)
                },
            }
        },
    }
}

/// Seals a payload for the given recipients: builds the header, derives the
/// cipher key from the encapsulated secret, and writes the envelope. The header
/// names AES-128-GCM and the default mode, so the payload is sealed in segments
/// of 64 KiB. Header and secret are random; whatever they are, every recipient
/// who recovers the secret from the header opens the envelope to the payload
/// again. Where the policies admit no header, the generator is left as it was. It fails with
/// `ConstraintViolation`, and does so whenever the policies admit no header or
/// the payload has more full segments than a stream can number. It succeeds
/// whenever neither is the case and the bound on the header's length is within
/// what a reader accepts.
pub fn seal(pk: &PublicKey, policies: &Vec<(String, Policy)>, rng: &mut StdRng, payload: &[u8]) -> (res:
    Result<Vec<u8>, Error>)
    ensures
        match res {
            Ok(envelope) => exists|h: HeaderView, secret: Seq<u8>|
                {
                    &&& spec_header_matches(h, policies_view(policies@))
                    &&& h.algo is Aes128Gcm
                    &&& h.mode == spec_default_mode()
                    &&& #[trigger] spec_sealed(envelope@, h, secret, payload@)
                },
            Err(e) => e == Error::ConstraintViolation,
        },
        !spec_policies_sealable(policies_view(policies@)) ==> *final(rng) == *old(rng),
        !spec_policies_sealable(policies_view(policies@)) || !spec_stream_fits(
            65536,
            payload@.len() as int,
        ) ==> res is Err,
        spec_policies_sealable(policies_view(policies@)) && spec_stream_fits(
            65536,
            payload@.len() as int,
        ) && spec_header_bound(policies_view(policies@)) <= MAX_HEADER_SIZE ==> res is Ok,
{
    match Header::new(pk, policies, rng) {
        Err(e) => Err(e),
        Ok((header, secret)) => {
            let res = seal_with(&header, &secret, payload);
            proof {
                if spec_header_bound(policies_view(policies@)) <= MAX_HEADER_SIZE {
                    lemma_header_bound(header@, policies_view(policies@));
                }
                if res is Ok {
                    assert(spec_sealed(res->Ok_0@, header@, secret.0@, payload@));
                }
            }
            res
        },
    }
}

} // verus!

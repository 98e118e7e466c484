//! Opening an envelope.

use crate::artifacts::UserSecretKey;
use crate::bytes::{
    lemma_be16_roundtrip,
    lemma_be32_roundtrip,
    read_be16,
    read_be32,
    spec_be16,
    spec_be32,
    spec_from_be16,
    spec_from_be32,
};
use crate::constants::{MAX_HEADER_SIZE, PRELUDE, VERSION_V2};
use crate::error::Error;
use crate::kem::{spec_ct_valid, spec_multi_decaps};
use crate::metadata::ser::spec_decodes;
use crate::metadata::{Header, HeaderView, RecipientView};
use crate::stream::sealer::{spec_preamble, spec_stream_params, stream_params};
use crate::stream::{open_stream, spec_open_stream, StreamOpener};
use crate::util::{derive_keys, spec_aes_key};
use vstd::prelude::*;
use vstd::slice::slice_subrange;

verus! {

/// The length of the header that the first ten bytes of an envelope announce. A
/// wrong prelude or another version than the supported one is a
/// `FormatViolation`; a header longer than a reader accepts is a
/// `ConstraintViolation`.
pub open spec fn spec_header_len(fixed: Seq<u8>) -> Result<int, Error>
    recommends
        fixed.len() == 10,
{
    if fixed.subrange(0, 4) != PRELUDE@ {
        Err(Error::FormatViolation)
    } else if spec_from_be16(fixed.subrange(4, 6)) != VERSION_V2 {
        Err(Error::FormatViolation)
    } else if spec_from_be32(fixed.subrange(6, 10)) > MAX_HEADER_SIZE {
        Err(Error::ConstraintViolation)
    } else {
        Ok(spec_from_be32(fixed.subrange(6, 10)) as int)
    }
}

/// Where the header of an envelope ends, if the envelope holds all of it.
pub open spec fn spec_header_end(envelope: Seq<u8>) -> Result<int, Error> {
    if envelope.len() < 10 {
        Err(Error::FormatViolation)
    } else {
        match spec_header_len(envelope.subrange(0, 10)) {
            Err(e) => Err(e),
            Ok(len) => if envelope.len() < 10 + len {
                Err(Error::FormatViolation)
            } else {
                Ok(10 + len)
            },
        }
    }
}

/// Reads the first ten bytes of an envelope: checks prelude and version, and
/// returns the length of the header that follows.
pub fn read_preamble(fixed: &[u8; 10]) -> (res: Result<usize, Error>)
    ensures
        match res {
            Ok(len) => spec_header_len(fixed@) == Ok::<int, Error>(len as int),
            Err(e) => spec_header_len(fixed@) == Err::<int, Error>(e),
        },
{
    let bytes = fixed.as_slice();
    let mut i: usize = 0;
    while i < 4
        invariant
            i <= 4,
            bytes@ == fixed@,
            bytes@.len() == 10,
            forall|j: int| 0 <= j < i ==> bytes@[j] == PRELUDE@[j],
        decreases 4 - i,
    {
        if bytes[i] != PRELUDE[i] {
            assert(fixed@.subrange(0, 4)[i as int] == bytes@[i as int]);
            return Err(Error::FormatViolation);
        }
        i += 1;
    }
    assert(fixed@.subrange(0, 4) =~= PRELUDE@);
    let version = read_be16(bytes, 4);
    if version != VERSION_V2 {
        return Err(Error::FormatViolation);
    }
    let len = read_be32(bytes, 6);
    if len as usize > MAX_HEADER_SIZE {
        return Err(Error::ConstraintViolation);
    }
    Ok(len as usize)
}

/// Whether `i` is the first recipient of the header under the identifier `id`.
pub open spec fn spec_is_first(h: HeaderView, id: Seq<char>, i: int) -> bool {
    &&& 0 <= i < h.recipients.len()
    &&& h.recipients[i].id == id
    &&& forall|j: int| 0 <= j < i ==> (#[trigger] h.recipients[j]).id != id
}

/// The recipient of the header under the identifier `id`, if there is one.
pub open spec fn spec_lookup(h: HeaderView, id: Seq<char>) -> Option<RecipientView> {
    if exists|i: int| spec_is_first(h, id, i) {
        Some(h.recipients[choose|i: int| spec_is_first(h, id, i)])
    } else {
        None
    }
}

/// The cipher key that a recipient derives from the header with a user secret
/// key. A missing recipient or another cipher or mode than this library opens
/// is a `ConstraintViolation`; a ciphertext that the scheme does not accept is a
/// `FormatViolation`; a refusal to decapsulate is `Kem`.
pub open spec fn spec_recipient_key(h: HeaderView, id: Seq<char>, usk: Seq<u8>) -> Result<
    Seq<u8>,
    Error,
> {
    if spec_stream_params(h) is None {
        Err(Error::ConstraintViolation)
    } else {
        match spec_lookup(h, id) {
            None => Err(Error::ConstraintViolation),
            Some(r) => if !spec_ct_valid(r.ct) {
                Err(Error::FormatViolation)
            } else {
                match spec_multi_decaps(usk, r.ct) {
                    None => Err(Error::Kem),
                    Some(secret) => Ok(spec_aes_key(secret)),
                }
            },
        }
    }
}

/// The payload that a recipient recovers from a sealed stream under the header.
/// A stream that does not authenticate is an `AuthenticationFailure`.
pub open spec fn spec_unseal(h: HeaderView, id: Seq<char>, usk: Seq<u8>, stream: Seq<u8>) -> Result<
    Seq<u8>,
    Error,
> {
    match spec_recipient_key(h, id, usk) {
        Err(e) => Err(e),
        Ok(key) => {
            let (iv, seg) = spec_stream_params(h)->Some_0;
            match spec_open_stream(key, iv, seg, stream) {
                None => Err(Error::AuthenticationFailure),
                Some(payload) => Ok(payload),
            }
        },
    }
}

/// Whether the recipient `id` recovers `secret` from the header with the user
/// secret key `usk`.
pub open spec fn spec_recovers(h: HeaderView, id: Seq<char>, usk: Seq<u8>, secret: Seq<u8>) -> bool {
    &&& spec_lookup(h, id) matches Some(r)
    &&& spec_ct_valid(r.ct)
    &&& spec_multi_decaps(usk, r.ct) == Some(secret)
}

/// What was written as the fixed part and the header of an envelope is read as
/// such, whatever follows.
pub proof fn lemma_preamble_is_read(header_bytes: Seq<u8>, rest: Seq<u8>)
    requires
        header_bytes.len() <= MAX_HEADER_SIZE,
    ensures
        spec_preamble(header_bytes).len() == 10 + header_bytes.len() as int,
        spec_header_end(spec_preamble(header_bytes) + rest) == Ok::<int, Error>(
            10 + header_bytes.len() as int,
        ),
        (spec_preamble(header_bytes) + rest).subrange(10, 10 + header_bytes.len() as int)
            == header_bytes,
        (spec_preamble(header_bytes) + rest).subrange(
            10 + header_bytes.len() as int,
            (spec_preamble(header_bytes) + rest).len() as int,
        ) == rest,
{
    let len = header_bytes.len() as u32;
    let envelope = spec_preamble(header_bytes) + rest;
    let fixed = envelope.subrange(0, 10);
    lemma_be16_roundtrip(VERSION_V2);
    lemma_be32_roundtrip(len);
    assert(fixed.subrange(0, 4) =~= PRELUDE@);
    assert(fixed.subrange(4, 6) =~= spec_be16(VERSION_V2));
    assert(fixed.subrange(6, 10) =~= spec_be32(len));
    assert(envelope.subrange(10, 10 + header_bytes.len() as int) =~= header_bytes);
    assert(envelope.subrange(10 + header_bytes.len() as int, envelope.len() as int) =~= rest);
}

/// An envelope that differs from a readable one in its prelude or its version,
/// be it in a single bit, is refused with `FormatViolation`.
pub proof fn lemma_tampered_fixed_part(envelope: Seq<u8>, tampered: Seq<u8>, at: int)
    requires
        spec_header_end(envelope) is Ok,
        tampered.len() == envelope.len(),
        0 <= at < 6,
        tampered[at] != envelope[at],
        forall|i: int| 0 <= i < envelope.len() && i != at ==> tampered[i] == envelope[i],
    ensures
        spec_header_end(tampered) == Err::<int, Error>(Error::FormatViolation),
{
    let a = envelope.subrange(0, 10);
    let b = tampered.subrange(0, 10);
    if at < 4 {
        assert(a.subrange(0, 4)[at] == envelope[at]);
        assert(b.subrange(0, 4)[at] == tampered[at]);
    } else {
        assert(b.subrange(0, 4) =~= a.subrange(0, 4));
        let x = a.subrange(4, 6);
        let y = b.subrange(4, 6);
        assert(x[0] == envelope[4] && x[1] == envelope[5]);
        assert(y[0] == tampered[4] && y[1] == tampered[5]);
    }
}

/// A recipient who recovers the secret under which a payload was sealed opens
/// the sealed stream to that payload, provided the stream opens under the
/// secret's key.
pub proof fn lemma_recipient_opens(
    h: HeaderView,
    id: Seq<char>,
    usk: Seq<u8>,
    secret: Seq<u8>,
    stream: Seq<u8>,
    payload: Seq<u8>,
)
    requires
        spec_recovers(h, id, usk, secret),
        spec_stream_params(h) matches Some((iv, seg)) && spec_open_stream(
            spec_aes_key(secret),
            iv,
            seg,
            stream,
        ) == Some(payload),
    ensures
        spec_unseal(h, id, usk, stream) == Ok::<Seq<u8>, Error>(payload),
{
}

/// An envelope whose header has been read.
#[derive(Debug)]
pub struct Unsealer {
    /// The format version of the envelope.
    pub version: u16,
    /// The header of the envelope.
    pub header: Header,
}

impl Unsealer {
    /// Reads prelude, version and header of an envelope, and returns where the
    /// sealed stream begins. The errors of the fixed part are those of
    /// [`spec_header_end`]; header bytes that decode to no well-formed header
    /// are a `FormatViolation`.
    pub fn new(envelope: &[u8]) -> (res: Result<(Unsealer, usize), Error>)
        ensures
            match res {
                Ok((unsealer, start)) => {
                    &&& spec_header_end(envelope@) == Ok::<int, Error>(start as int)
                    &&& unsealer.version == VERSION_V2
                    &&& spec_decodes(envelope@.subrange(10, start as int), unsealer.header@)
                },
                Err(e) => match spec_header_end(envelope@) {
                    Err(fixed) => e == fixed,
                    Ok(end) => e == Error::FormatViolation && forall|h: HeaderView|
                        !#[trigger] spec_decodes(envelope@.subrange(10, end), h),
                },
            },
            forall|h: HeaderView|
                spec_header_end(envelope@) is Ok && #[trigger] spec_decodes(
                    envelope@.subrange(10, spec_header_end(envelope@)->Ok_0),
                    h,
                ) ==> (res matches Ok((unsealer, _)) && unsealer.header@ == h),
    {
        if envelope.len() < 10 {
            return Err(Error::FormatViolation);
        }
        let fixed: [u8; 10] = crate::util::take10(envelope);
        let len = match read_preamble(&fixed) {
            Err(e) => {
                return Err(e);
            },
            Ok(len) => len,
        };
        if envelope.len() - 10 < len {
            return Err(Error::FormatViolation);
        }
        let header_bytes = slice_subrange(envelope, 10, 10 + len);
        match Header::msgpack_from(header_bytes) {
            Err(e) => Err(e),
            Ok(header) => Ok((Unsealer { version: VERSION_V2, header }, 10 + len)),
        }
    }

    /// The cipher key of the recipient `id`, derived with the recipient's user
    /// secret key.
    pub fn recipient_key(&self, id: &str, usk: &UserSecretKey) -> (res: Result<[u8; 16], Error>)
        ensures
            match res {
                Ok(key) => spec_recipient_key(self.header@, id@, usk@) == Ok::<Seq<u8>, Error>(
                    key@,
                ),
                Err(e) => spec_recipient_key(self.header@, id@, usk@) == Err::<Seq<u8>, Error>(e),
            },
    {
        if stream_params(&self.header).is_none() {
            return Err(Error::ConstraintViolation);
        }
        let entry = self.header.get(id);
        proof {
            let h = self.header@;
            match entry {
                None => {
                    assert forall|i: int| !spec_is_first(h, id@, i) by {
                        if 0 <= i < h.recipients.len() {
                            assert(self.header.policies@[i].0@ != id@);
                        }
                    }
                },
                Some(r) => {
                    let i = choose|i: int|
                        {
                            &&& 0 <= i < self.header.policies@.len()
                            &&& (#[trigger] self.header.policies@[i]).0@ == id@
                            &&& *r == self.header.policies@[i].1
                            &&& forall|j: int|
                                0 <= j < i ==> (#[trigger] self.header.policies@[j]).0@ != id@
                        };
                    assert forall|j: int| 0 <= j < i implies (#[trigger] h.recipients[j]).id
                        != id@ by {
                        assert(self.header.policies@[j].0@ != id@);
                    }
                    assert(spec_is_first(h, id@, i));
                    let k = choose|k: int| spec_is_first(h, id@, k);
                    assert(spec_is_first(h, id@, k));
                    if k < i {
                        assert(h.recipients[k].id != id@);
                    }
                    if i < k {
                        assert(h.recipients[i].id != id@);
                    }
                    assert(k == i);
                    assert(spec_lookup(h, id@) == Some(h.recipients[i]));
                    assert(h.recipients[i].ct == r.ct@);
                },
            }
        }
        match entry {
            None => Err(Error::ConstraintViolation),
            Some(r) => match r.derive_keys(usk) {
                Err(e) => Err(e),
                Ok(secret) => Ok(derive_keys(&secret).aes_key),
            },
        }
    }

    /// Starts opening the sealed stream for the recipient `id`: returns an opener
    /// that takes the stream piece by piece.
    pub fn opener(&self, id: &str, usk: &UserSecretKey) -> (res: Result<StreamOpener, Error>)
        ensures
            match res {
                Ok(opener) => {
                    &&& spec_recipient_key(self.header@, id@, usk@) == Ok::<Seq<u8>, Error>(
                        opener.key(),
                    )
                    &&& spec_stream_params(self.header@) == Some(
                        (opener.iv(), opener.segment_size()),
                    )
                    &&& opener.wf()
                    &&& opener.consumed() == Seq::<u8>::empty()
                    &&& opener.produced() == Seq::<u8>::empty()
                },
                Err(e) => spec_recipient_key(self.header@, id@, usk@) == Err::<Seq<u8>, Error>(e),
            },
    {
        let key = match self.recipient_key(id, usk) {
            Err(e) => {
                return Err(e);
            },
            Ok(key) => key,
        };
        match stream_params(&self.header) {
            None => Err(Error::ConstraintViolation),
            Some((iv, seg)) => StreamOpener::new(key, iv, seg),
        }
    }

    /// Opens the sealed stream of the envelope for the recipient `id`. The payload
    /// is returned only if every segment authenticates.
    pub fn unseal(&self, id: &str, usk: &UserSecretKey, stream: &[u8]) -> (res: Result<
        Vec<u8>,
        Error,
    >)
        ensures
            match res {
                Ok(payload) => spec_unseal(self.header@, id@, usk@, stream@) == Ok::<
                    Seq<u8>,
                    Error,
                >(payload@),
                Err(e) => spec_unseal(self.header@, id@, usk@, stream@) == Err::<Seq<u8>, Error>(e),
            },
    {
        let key = match self.recipient_key(id, usk) {
            Err(e) => {
                return Err(e);
            },
            Ok(key) => key,
        };
        match stream_params(&self.header) {
            None => Err(Error::ConstraintViolation),
            Some((iv, seg)) => open_stream(key, iv, seg, stream),
        }
    }
}

/// What opening an envelope gives, where its header decodes to `h`.
pub open spec fn spec_unseal_envelope(
    envelope: Seq<u8>,
    h: HeaderView,
    id: Seq<char>,
    usk: Seq<u8>,
) -> Result<Seq<u8>, Error>
    recommends
        spec_header_end(envelope) is Ok,
{
    spec_unseal(
        h,
        id,
        usk,
        envelope.subrange(spec_header_end(envelope)->Ok_0, envelope.len() as int),
    )
}

/// Opens an envelope for the recipient `id`: reads the header, recovers the
/// shared secret with the user secret key, and opens the sealed stream. The
/// errors of the fixed part come first; a header that does not decode is a
/// `FormatViolation`; everything else is as [`spec_unseal`] says of the header
/// that the envelope carries.
pub fn unseal(envelope: &[u8], id: &str, usk: &UserSecretKey) -> (res: Result<Vec<u8>, Error>)
    ensures
        spec_header_end(envelope@) matches Err(e) ==> res == Err::<Vec<u8>, Error>(e),
        spec_header_end(envelope@) matches Ok(end) ==> {
            &&& (forall|h: HeaderView| !#[trigger] spec_decodes(envelope@.subrange(10, end), h))
                ==> res == Err::<Vec<u8>, Error>(Error::FormatViolation)
            &&& forall|h: HeaderView| #[trigger]
                spec_decodes(envelope@.subrange(10, end), h) ==> match res {
                    Ok(payload) => spec_unseal_envelope(envelope@, h, id@, usk@) == Ok::<
                        Seq<u8>,
                        Error,
                    >(payload@),
                    Err(e) => spec_unseal_envelope(envelope@, h, id@, usk@) == Err::<
                        Seq<u8>,
                        Error,
                    >(e),
                }
        },
{
    match Unsealer::new(envelope) {
        Err(e) => Err(e),
        Ok((unsealer, start)) => {
            let stream = slice_subrange(envelope, start, envelope.len());
            unsealer.unseal(id, usk, stream)
        },
    }
}

} // verus!

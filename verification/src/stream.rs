//! Segmented authenticated encryption of a payload.
//!
//! A payload is cut into segments of a fixed size. Every segment is sealed under
//! its own nonce: the first seven bytes of the initialization vector, the
//! segment's index as four big-endian bytes, and one byte that is 1 for the final
//! segment and 0 for every other. A stream always ends with exactly one final
//! segment, which may be empty.

pub mod sealer;
pub mod unsealer;

use crate::bytes::{extend_bytes, spec_be32};
use crate::cipher::{
    aes128gcm_open,
    aes128gcm_seal,
    spec_aes128gcm_open,
    spec_aes128gcm_seal,
};
use crate::constants::STREAM_NONCE_SIZE;
use crate::error::Error;
use vstd::arithmetic::div_mod::{lemma_div_is_ordered, lemma_fundamental_div_mod_converse};
use vstd::prelude::*;

verus! {

/// The nonce of the segment with index `counter`.
pub open spec fn spec_stream_nonce(iv: Seq<u8>, counter: u32, last: bool) -> Seq<u8> {
    iv.subrange(0, STREAM_NONCE_SIZE as int) + spec_be32(counter) + seq![
        if last {
            1u8
        } else {
            0u8
        },
    ]
}

/// The sealed form of one segment.
pub open spec fn spec_seal_segment(
    key: Seq<u8>,
    iv: Seq<u8>,
    counter: int,
    last: bool,
    plaintext: Seq<u8>,
) -> Seq<u8> {
    spec_aes128gcm_seal(key, spec_stream_nonce(iv, counter as u32, last), plaintext)
}

/// The plaintext of one sealed segment, if it authenticates. A segment that is not
/// final never carries the largest index.
pub open spec fn spec_open_segment(
    key: Seq<u8>,
    iv: Seq<u8>,
    counter: int,
    last: bool,
    ciphertext: Seq<u8>,
) -> Option<Seq<u8>> {
    if 0 <= counter < u32::MAX || (last && counter == u32::MAX) {
        spec_aes128gcm_open(key, spec_stream_nonce(iv, counter as u32, last), ciphertext)
    } else {
        None
    }
}

/// The first `n` segments of `data`, each sealed as a segment that is not final.
pub open spec fn spec_seal_full(key: Seq<u8>, iv: Seq<u8>, seg: int, data: Seq<u8>, n: nat) -> Seq<
    u8,
>
    decreases n,
{
    if n == 0 {
        Seq::empty()
    } else {
        spec_seal_full(key, iv, seg, data, (n - 1) as nat) + spec_seal_segment(
            key,
            iv,
            n - 1,
            false,
            data.subrange((n - 1) * seg, n * seg),
        )
    }
}

/// Whether a payload of `len` bytes can be sealed in segments of `seg` bytes: the
/// index of its final segment must fit in thirty-two bits.
pub open spec fn spec_stream_fits(seg: int, len: int) -> bool {
    seg > 0 && len / seg <= u32::MAX
}

/// The length of the sealed stream of a payload of `len` bytes: every segment,
/// the final one included, grows by its tag of sixteen bytes.
pub open spec fn spec_sealed_len(seg: int, len: int) -> int {
    len + 16 * (len / seg + 1)
}

/// The sealed stream of a payload: its full segments, then what is left as the
/// final segment.
pub open spec fn spec_seal_stream(key: Seq<u8>, iv: Seq<u8>, seg: int, data: Seq<u8>) -> Seq<u8> {
    let n = (data.len() as int) / seg;
    spec_seal_full(key, iv, seg, data, n as nat) + spec_seal_segment(
        key,
        iv,
        n,
        true,
        data.subrange(n * seg, data.len() as int),
    )
}

/// The number of sealed segments that precede the final one in a stream of `len`
/// bytes.
pub open spec fn spec_chunks(seg: int, len: int) -> int {
    if len <= 0 {
        0
    } else {
        (len - 1) / (seg + 16)
    }
}

/// The plaintext of the first `n` sealed segments of `stream`, none of them final,
/// or `None` if one of them does not authenticate.
pub open spec fn spec_open_full(key: Seq<u8>, iv: Seq<u8>, seg: int, stream: Seq<u8>, n: nat) -> Option<
    Seq<u8>,
>
    decreases n,
{
    if n == 0 {
        Some(Seq::empty())
    } else {
        match spec_open_full(key, iv, seg, stream, (n - 1) as nat) {
            None => None,
            Some(head) => match spec_open_segment(
                key,
                iv,
                n - 1,
                false,
                stream.subrange((n - 1) * (seg + 16), n * (seg + 16)),
            ) {
                None => None,
                Some(tail) => Some(head + tail),
            },
        }
    }
}

/// The payload of a sealed stream, or `None` if any segment fails to authenticate.
pub open spec fn spec_open_stream(key: Seq<u8>, iv: Seq<u8>, seg: int, stream: Seq<u8>) -> Option<
    Seq<u8>,
> {
    let n = spec_chunks(seg, stream.len() as int);
    match spec_open_full(key, iv, seg, stream, n as nat) {
        None => None,
        Some(head) => match spec_open_segment(
            key,
            iv,
            n,
            true,
            stream.subrange(n * (seg + 16), stream.len() as int),
        ) {
            None => None,
            Some(tail) => Some(head + tail),
        },
    }
}

proof fn lemma_mul_step(n: int, s: int)
    ensures
        (n + 1) * s == n * s + s,
        (n - 1) * s == n * s - s,
{
    assert((n + 1) * s == n * s + s) by (nonlinear_arith);
    assert((n - 1) * s == n * s - s) by (nonlinear_arith);
}

proof fn lemma_mul_nonneg(n: int, s: int)
    requires
        n >= 0,
        s >= 0,
    ensures
        n * s >= 0,
{
    assert(n * s >= 0) by (nonlinear_arith)
        requires
            n >= 0,
            s >= 0,
    ;
}

/// The first `n` sealed segments depend only on the first `n` segments of the data.
proof fn lemma_seal_full_prefix(key: Seq<u8>, iv: Seq<u8>, seg: int, a: Seq<u8>, b: Seq<u8>, n: nat)
    requires
        seg > 0,
        n * seg <= a.len(),
        n * seg <= b.len(),
        a.subrange(0, n * seg) == b.subrange(0, n * seg),
    ensures
        spec_seal_full(key, iv, seg, a, n) == spec_seal_full(key, iv, seg, b, n),
    decreases n,
{
    if n > 0 {
        lemma_mul_step(n as int, seg);
        lemma_mul_nonneg(n - 1, seg);
        let lo = (n - 1) * seg;
        let hi = n * seg;
        assert(a.subrange(0, lo) =~= a.subrange(0, hi).subrange(0, lo));
        assert(b.subrange(0, lo) =~= b.subrange(0, hi).subrange(0, lo));
        lemma_seal_full_prefix(key, iv, seg, a, b, (n - 1) as nat);
        assert(a.subrange(lo, hi) =~= a.subrange(0, hi).subrange(lo, hi));
        assert(b.subrange(lo, hi) =~= b.subrange(0, hi).subrange(lo, hi));
    }
}

/// The plaintext of the first `n` sealed segments depends only on those segments.
proof fn lemma_open_full_prefix(key: Seq<u8>, iv: Seq<u8>, seg: int, a: Seq<u8>, b: Seq<u8>, n: nat)
    requires
        seg > 0,
        n * (seg + 16) <= a.len(),
        n * (seg + 16) <= b.len(),
        a.subrange(0, n * (seg + 16)) == b.subrange(0, n * (seg + 16)),
    ensures
        spec_open_full(key, iv, seg, a, n) == spec_open_full(key, iv, seg, b, n),
    decreases n,
{
    if n > 0 {
        lemma_mul_step(n as int, seg + 16);
        lemma_mul_nonneg(n - 1, seg + 16);
        let lo = (n - 1) * (seg + 16);
        let hi = n * (seg + 16);
        assert(a.subrange(0, lo) =~= a.subrange(0, hi).subrange(0, lo));
        assert(b.subrange(0, lo) =~= b.subrange(0, hi).subrange(0, lo));
        lemma_open_full_prefix(key, iv, seg, a, b, (n - 1) as nat);
        assert(a.subrange(lo, hi) =~= a.subrange(0, hi).subrange(lo, hi));
        assert(b.subrange(lo, hi) =~= b.subrange(0, hi).subrange(lo, hi));
    }
}

/// Once a segment has failed, no longer run of segments opens.
proof fn lemma_open_full_stays_none(key: Seq<u8>, iv: Seq<u8>, seg: int, s: Seq<u8>, n: nat, m: nat)
    requires
        n <= m,
        spec_open_full(key, iv, seg, s, n) is None,
    ensures
        spec_open_full(key, iv, seg, s, m) is None,
    decreases m,
{
    if n < m {
        lemma_open_full_stays_none(key, iv, seg, s, n, (m - 1) as nat);
    }
}

/// What holds of a sealer between two steps: `produced` is the sealed form of the
/// `n` full segments of `consumed`, it opens to them again, and `pending` holds the
/// rest of `consumed`.
pub open spec fn spec_sealer_inv(
    key: Seq<u8>,
    iv: Seq<u8>,
    seg: int,
    n: nat,
    pending: Seq<u8>,
    consumed: Seq<u8>,
    produced: Seq<u8>,
) -> bool {
    &&& seg > 0
    &&& pending.len() <= seg
    &&& consumed.len() == n * seg + pending.len()
    &&& pending == consumed.subrange(n * seg, consumed.len() as int)
    &&& produced == spec_seal_full(key, iv, seg, consumed, n)
    &&& produced.len() == n * (seg + 16)
    &&& spec_open_full(key, iv, seg, produced, n) == Some(consumed.subrange(0, n * seg))
}

/// Taking in more payload without completing a segment keeps the invariant.
proof fn lemma_sealer_absorb(
    key: Seq<u8>,
    iv: Seq<u8>,
    seg: int,
    n: nat,
    pending: Seq<u8>,
    consumed: Seq<u8>,
    produced: Seq<u8>,
    piece: Seq<u8>,
)
    requires
        spec_sealer_inv(key, iv, seg, n, pending, consumed, produced),
        pending.len() + piece.len() <= seg,
    ensures
        spec_sealer_inv(key, iv, seg, n, pending + piece, consumed + piece, produced),
{
    let c = consumed + piece;
    lemma_mul_nonneg(n as int, seg);
    assert(pending + piece =~= c.subrange(n * seg, c.len() as int));
    assert(consumed.subrange(0, n * seg) =~= c.subrange(0, n * seg));
    lemma_seal_full_prefix(key, iv, seg, consumed, c, n);
}

/// Handing out a completed segment keeps the invariant.
proof fn lemma_sealer_flush(
    key: Seq<u8>,
    iv: Seq<u8>,
    seg: int,
    n: nat,
    pending: Seq<u8>,
    consumed: Seq<u8>,
    produced: Seq<u8>,
    sealed: Seq<u8>,
)
    requires
        spec_sealer_inv(key, iv, seg, n, pending, consumed, produced),
        pending.len() == seg,
        n < u32::MAX,
        sealed == spec_seal_segment(key, iv, n as int, false, pending),
        sealed.len() == seg + 16,
        spec_open_segment(key, iv, n as int, false, sealed) == Some(pending),
    ensures
        spec_sealer_inv(key, iv, seg, n + 1, Seq::empty(), consumed, produced + sealed),
{
    let total = produced + sealed;
    lemma_mul_step(n as int, seg);
    lemma_mul_step(n as int, seg + 16);
    lemma_mul_nonneg(n as int, seg);
    lemma_mul_nonneg(n as int, seg + 16);
    assert(pending =~= consumed.subrange(n * seg, (n + 1) * seg));
    assert(Seq::<u8>::empty() =~= consumed.subrange((n + 1) * seg, consumed.len() as int));
    assert(total == spec_seal_full(key, iv, seg, consumed, n + 1));
    assert(produced.subrange(0, n * (seg + 16)) =~= total.subrange(0, n * (seg + 16)));
    lemma_open_full_prefix(key, iv, seg, produced, total, n);
    assert(total.subrange(n * (seg + 16), (n + 1) * (seg + 16)) =~= sealed);
    assert(consumed.subrange(0, n * seg) + pending =~= consumed.subrange(0, (n + 1) * seg));
}

/// What holds of an opener between two steps: `produced` is the plaintext of the
/// `n` segments of `consumed` that are known not to be final, and `pending` holds
/// the rest of `consumed`.
pub open spec fn spec_opener_inv(
    key: Seq<u8>,
    iv: Seq<u8>,
    seg: int,
    n: nat,
    pending: Seq<u8>,
    consumed: Seq<u8>,
    produced: Seq<u8>,
) -> bool {
    &&& seg > 0
    &&& pending.len() <= seg + 16
    &&& consumed.len() == n * (seg + 16) + pending.len()
    &&& pending == consumed.subrange(n * (seg + 16), consumed.len() as int)
    &&& spec_open_full(key, iv, seg, consumed, n) == Some(produced)
}

/// Taking in more of the stream without deciding a segment keeps the invariant.
proof fn lemma_opener_absorb(
    key: Seq<u8>,
    iv: Seq<u8>,
    seg: int,
    n: nat,
    pending: Seq<u8>,
    consumed: Seq<u8>,
    produced: Seq<u8>,
    piece: Seq<u8>,
)
    requires
        spec_opener_inv(key, iv, seg, n, pending, consumed, produced),
        pending.len() + piece.len() <= seg + 16,
    ensures
        spec_opener_inv(key, iv, seg, n, pending + piece, consumed + piece, produced),
{
    let c = consumed + piece;
    lemma_mul_nonneg(n as int, seg + 16);
    assert(pending + piece =~= c.subrange(n * (seg + 16), c.len() as int));
    assert(consumed.subrange(0, n * (seg + 16)) =~= c.subrange(0, n * (seg + 16)));
    lemma_open_full_prefix(key, iv, seg, consumed, c, n);
}

/// Opening a segment that is followed by more of the stream keeps the invariant.
proof fn lemma_opener_flush(
    key: Seq<u8>,
    iv: Seq<u8>,
    seg: int,
    n: nat,
    pending: Seq<u8>,
    consumed: Seq<u8>,
    produced: Seq<u8>,
    plain: Seq<u8>,
)
    requires
        spec_opener_inv(key, iv, seg, n, pending, consumed, produced),
        pending.len() == seg + 16,
        spec_open_segment(key, iv, n as int, false, pending) == Some(plain),
    ensures
        spec_opener_inv(key, iv, seg, n + 1, Seq::empty(), consumed, produced + plain),
{
    lemma_mul_step(n as int, seg + 16);
    lemma_mul_nonneg(n as int, seg + 16);
    assert(pending =~= consumed.subrange(n * (seg + 16), (n + 1) * (seg + 16)));
    assert(Seq::<u8>::empty() =~= consumed.subrange(
        (n + 1) * (seg + 16),
        consumed.len() as int,
    ));
}

/// A segment that fails, and is followed by more of the stream, fails the stream.
proof fn lemma_opener_fail(
    key: Seq<u8>,
    iv: Seq<u8>,
    seg: int,
    n: nat,
    pending: Seq<u8>,
    consumed: Seq<u8>,
    produced: Seq<u8>,
    rest: Seq<u8>,
)
    requires
        spec_opener_inv(key, iv, seg, n, pending, consumed, produced),
        pending.len() == seg + 16,
        spec_open_segment(key, iv, n as int, false, pending) is None,
        rest.len() > 0,
    ensures
        spec_open_full(
            key,
            iv,
            seg,
            consumed + rest,
            spec_chunks(seg, (consumed + rest).len() as int) as nat,
        ) is None,
        spec_open_stream(key, iv, seg, consumed + rest) is None,
{
    let total = consumed + rest;
    lemma_mul_step(n as int, seg + 16);
    lemma_mul_nonneg(n as int, seg + 16);
    assert(pending =~= consumed.subrange(n * (seg + 16), (n + 1) * (seg + 16)));
    assert(spec_open_full(key, iv, seg, consumed, n + 1) is None);
    assert(consumed.subrange(0, (n + 1) * (seg + 16)) =~= total.subrange(0, (n + 1) * (seg + 16)));
    lemma_open_full_prefix(key, iv, seg, consumed, total, n + 1);
    lemma_fundamental_div_mod_converse((n + 1) * (seg + 16), seg + 16, (n + 1) as int, 0);
    lemma_div_is_ordered((n + 1) * (seg + 16), total.len() - 1, seg + 16);
    let m = spec_chunks(seg, total.len() as int);
    lemma_open_full_stays_none(key, iv, seg, total, n + 1, m as nat);
}

/// The number of segments before the final one, from the invariant.
proof fn lemma_opener_chunks(
    key: Seq<u8>,
    iv: Seq<u8>,
    seg: int,
    n: nat,
    pending: Seq<u8>,
    consumed: Seq<u8>,
    produced: Seq<u8>,
)
    requires
        spec_opener_inv(key, iv, seg, n, pending, consumed, produced),
        consumed.len() > 0 ==> pending.len() > 0,
    ensures
        spec_chunks(seg, consumed.len() as int) == n,
{
    lemma_mul_nonneg(n as int, seg + 16);
    if consumed.len() == 0 {
        assert(n == 0) by (nonlinear_arith)
            requires
                n * (seg + 16) == 0,
                seg > 0,
        ;
    } else {
        lemma_fundamental_div_mod_converse(
            consumed.len() - 1,
            seg + 16,
            n as int,
            pending.len() - 1,
        );
    }
}

/// Builds the nonce of the segment with index `counter`.
pub fn stream_nonce(iv: &[u8; 16], counter: u32, last: bool) -> (nonce: [u8; 12])
    ensures
        nonce@ == spec_stream_nonce(iv@, counter, last),
{
    let mut nonce = [0u8; 12];
    let mut i: usize = 0;
    while i < STREAM_NONCE_SIZE
        invariant
            i <= STREAM_NONCE_SIZE,
            forall|j: int| 0 <= j < i ==> nonce@[j] == iv@[j],
        decreases STREAM_NONCE_SIZE - i,
    {
        nonce[i] = iv[i];
        i += 1;
    }
    nonce[7] = (counter / 16777216) as u8;
    nonce[8] = ((counter / 65536) % 256) as u8;
    nonce[9] = ((counter / 256) % 256) as u8;
    nonce[10] = (counter % 256) as u8;
    nonce[11] = if last { 1 } else { 0 };
    assert(nonce@ =~= spec_stream_nonce(iv@, counter, last));
    nonce
}

/// Seals a payload that arrives piece by piece.
///
/// The sealer keeps what does not yet fill a segment and hands out a sealed
/// segment as soon as one is full. `finish` seals what is left as the final
/// segment.
pub struct StreamSealer {
    key: [u8; 16],
    iv: [u8; 16],
    segment_size: u32,
    counter: u32,
    buf: Vec<u8>,
    consumed: Ghost<Seq<u8>>,
    produced: Ghost<Seq<u8>>,
}

impl StreamSealer {
    /// The cipher key.
    pub closed spec fn key(&self) -> Seq<u8> {
        self.key@
    }

    /// The initialization vector.
    pub closed spec fn iv(&self) -> Seq<u8> {
        self.iv@
    }

    /// The number of payload bytes in a full segment.
    pub closed spec fn segment_size(&self) -> int {
        self.segment_size as int
    }

    /// All payload bytes handed to the sealer so far.
    pub closed spec fn consumed(&self) -> Seq<u8> {
        self.consumed@
    }

    /// All sealed bytes handed out so far.
    pub closed spec fn produced(&self) -> Seq<u8> {
        self.produced@
    }

    /// The sealer's invariant: what it handed out is the sealed form of the full
    /// segments it has seen, and opens to them again.
    pub closed spec fn wf(&self) -> bool {
        &&& self.buf@.len() < self.segment_size
        &&& spec_sealer_inv(
            self.key@,
            self.iv@,
            self.segment_size as int,
            self.counter as nat,
            self.buf@,
            self.consumed@,
            self.produced@,
        )
    }

    /// A sealer for segments of `segment_size` bytes. A segment size of zero is
    /// refused with `ConstraintViolation`.
    pub fn new(key: [u8; 16], iv: [u8; 16], segment_size: u32) -> (res: Result<StreamSealer, Error>)
        ensures
            match res {
                Ok(sealer) => {
                    &&& segment_size > 0
                    &&& sealer.wf()
                    &&& sealer.key() == key@
                    &&& sealer.iv() == iv@
                    &&& sealer.segment_size() == segment_size
                    &&& sealer.consumed() == Seq::<u8>::empty()
                    &&& sealer.produced() == Seq::<u8>::empty()
                },
                Err(e) => e == Error::ConstraintViolation && segment_size == 0,
            },
    {
        if segment_size == 0 {
            return Err(Error::ConstraintViolation);
        }
        let sealer = StreamSealer {
            key,
            iv,
            segment_size,
            counter: 0,
            buf: Vec::new(),
            consumed: Ghost(Seq::empty()),
            produced: Ghost(Seq::empty()),
        };
        proof {
            assert(0 * (segment_size as int) == 0) by (nonlinear_arith);
            assert(0 * (segment_size as int + 16) == 0) by (nonlinear_arith);
            assert(sealer.buf@ =~= sealer.consumed@.subrange(0, 0));
            assert(sealer.consumed@.subrange(0, 0) =~= Seq::<u8>::empty());
        }
        Ok(sealer)
    }

    /// Takes the next piece of the payload and returns the segments it completes,
    /// sealed: for each full segment taken in so far, that segment and its tag
    /// have been handed out. It fails with `ConstraintViolation` exactly when the
    /// payload has grown to more full segments than a stream can number.
    pub fn update(&mut self, chunk: &[u8]) -> (res: Result<Vec<u8>, Error>)
        requires
            old(self).wf(),
        ensures
            final(self).wf(),
            final(self).key() == old(self).key(),
            final(self).iv() == old(self).iv(),
            final(self).segment_size() == old(self).segment_size(),
            match res {
                Ok(out) => {
                    &&& spec_stream_fits(
                        old(self).segment_size(),
                        (old(self).consumed().len() + chunk@.len()) as int,
                    )
                    &&& final(self).consumed() == old(self).consumed() + chunk@
                    &&& final(self).produced() == old(self).produced() + out@
                    &&& final(self).produced().len() == ((final(self).consumed().len() as int)
                        / final(self).segment_size()) * (final(self).segment_size() + 16)
                },
                Err(e) => e == Error::ConstraintViolation && !spec_stream_fits(
                    old(self).segment_size(),
                    (old(self).consumed().len() + chunk@.len()) as int,
                ),
            },
    {
        let seg = self.segment_size as usize;
        let clen = chunk.len();
        let mut out: Vec<u8> = Vec::new();
        let mut pos: usize = 0;
        while pos < clen
            invariant
                self.wf(),
                self.key@ == old(self).key@,
                self.iv@ == old(self).iv@,
                self.segment_size == old(self).segment_size,
                seg == self.segment_size,
                clen == chunk@.len(),
                pos <= clen,
                self.consumed@ == old(self).consumed@ + chunk@.subrange(0, pos as int),
                self.produced@ == old(self).produced@ + out@,
            decreases clen - pos,
        {
            let room = seg - self.buf.len();
            let remaining = clen - pos;
            let take = if remaining < room {
                remaining
            } else {
                room
            };
            let ghost n = self.counter as nat;
            let ghost sg = seg as int;
            if remaining >= room && self.counter == u32::MAX {
                proof {
                    let total = (old(self).consumed@.len() + chunk@.len()) as int;
                    lemma_mul_step(n as int, sg);
                    lemma_fundamental_div_mod_converse(
                        self.consumed@.len() + room,
                        sg,
                        (n + 1) as int,
                        0,
                    );
                    lemma_div_is_ordered(self.consumed@.len() + room, total, sg);
                }
                return Err(Error::ConstraintViolation);
            }
            let ghost pending = self.buf@;
            let ghost piece = chunk@.subrange(pos as int, pos + take);
            let ghost c0 = self.consumed@;
            let ghost p0 = self.produced@;
            let mut k: usize = 0;
            while k < take
                invariant
                    k <= take,
                    pos + take <= clen,
                    clen == chunk@.len(),
                    self.buf@ == pending + chunk@.subrange(pos as int, pos + k),
                    self.key@ == old(self).key@,
                    self.iv@ == old(self).iv@,
                    self.segment_size == seg,
                    self.counter == n,
                    self.consumed@ == c0,
                    self.produced@ == p0,
                decreases take - k,
            {
                self.buf.push(chunk[pos + k]);
                k += 1;
            }
            proof {
                lemma_sealer_absorb(
                    self.key@,
                    self.iv@,
                    sg,
                    n,
                    pending,
                    self.consumed@,
                    self.produced@,
                    piece,
                );
                assert(chunk@.subrange(0, pos + take) =~= chunk@.subrange(0, pos as int) + piece);
                self.consumed@ = self.consumed@ + piece;
                assert(self.consumed@ =~= old(self).consumed@ + chunk@.subrange(0, pos + take));
            }
            pos += take;
            if self.buf.len() == seg {
                let nonce = stream_nonce(&self.iv, self.counter, false);
                let sealed = aes128gcm_seal(&self.key, &nonce, self.buf.as_slice());
                extend_bytes(&mut out, sealed.as_slice());
                proof {
                    lemma_sealer_flush(
                        self.key@,
                        self.iv@,
                        sg,
                        n,
                        self.buf@,
                        self.consumed@,
                        self.produced@,
                        sealed@,
                    );
                    self.produced@ = self.produced@ + sealed@;
                    assert(self.produced@ =~= old(self).produced@ + out@);
                }
                self.counter = self.counter + 1;
                self.buf.clear();
            }
        }
        proof {
            assert(chunk@.subrange(0, clen as int) =~= chunk@);
            lemma_fundamental_div_mod_converse(
                self.consumed@.len() as int,
                self.segment_size as int,
                self.counter as int,
                self.buf@.len() as int,
            );
        }
        Ok(out)
    }

    /// Seals what is left as the final segment. The bytes handed out over the
    /// sealer's life, with these, are the sealed stream of the whole payload, and
    /// that stream opens to the payload again.
    pub fn finish(self) -> (out: Vec<u8>)
        requires
            self.wf(),
        ensures
            out@.len() == (self.consumed().len() as int) % self.segment_size() + 16,
            (self.produced() + out@).len() == spec_sealed_len(
                self.segment_size(),
                self.consumed().len() as int,
            ),
            self.produced() + out@ == spec_seal_stream(
                self.key(),
                self.iv(),
                self.segment_size(),
                self.consumed(),
            ),
            spec_open_stream(self.key(), self.iv(), self.segment_size(), self.produced() + out@)
                == Some(self.consumed()),
    {
        let nonce = stream_nonce(&self.iv, self.counter, true);
        let out = aes128gcm_seal(&self.key, &nonce, self.buf.as_slice());
        proof {
            let sg = self.segment_size as int;
            let n = self.counter as nat;
            let c = self.consumed@;
            let total = self.produced@ + out@;
            lemma_mul_nonneg(n as int, sg);
            lemma_mul_nonneg(n as int, sg + 16);
            lemma_fundamental_div_mod_converse(c.len() as int, sg, n as int, self.buf@.len() as int);
            lemma_fundamental_div_mod_converse(
                total.len() - 1,
                sg + 16,
                n as int,
                (self.buf@.len() + 15) as int,
            );
            assert(n * (sg + 16) == n * sg + 16 * n) by (nonlinear_arith);
            assert(spec_chunks(sg, total.len() as int) == n);
            assert(self.produced@.subrange(0, n * (sg + 16)) =~= total.subrange(0, n * (sg + 16)));
            lemma_open_full_prefix(self.key@, self.iv@, sg, self.produced@, total, n);
            assert(total.subrange(n * (sg + 16), total.len() as int) =~= out@);
            assert(c.subrange(0, n * sg) + self.buf@ =~= c);
        }
        out
    }
}

/// Seals a whole payload in segments of `segment_size` bytes; the stream is
/// longer than the payload by sixteen bytes for each of its segments. It fails
/// with `ConstraintViolation` exactly when the segment size is zero or the
/// payload has more full segments than a stream can number.
pub fn seal_stream(key: [u8; 16], iv: [u8; 16], segment_size: u32, data: &[u8]) -> (res: Result<
    Vec<u8>,
    Error,
>)
    ensures
        match res {
            Ok(out) => {
                &&& spec_stream_fits(segment_size as int, data@.len() as int)
                &&& out@ == spec_seal_stream(key@, iv@, segment_size as int, data@)
                &&& out@.len() == data@.len() + 16 * ((data@.len() as int) / (segment_size as int) + 1)
                &&& spec_open_stream(key@, iv@, segment_size as int, out@) == Some(data@)
            },
            Err(e) => e == Error::ConstraintViolation && !spec_stream_fits(
                segment_size as int,
                data@.len() as int,
            ),
        },
{
    match StreamSealer::new(key, iv, segment_size) {
        Err(e) => Err(e),
        Ok(sealer) => {
            let mut sealer = sealer;
            match sealer.update(data) {
                Err(e) => Err(e),
                Ok(head) => {
                    let ghost produced = sealer.produced();
                    let ghost consumed = sealer.consumed();
                    let tail = sealer.finish();
                    let mut out = head;
                    extend_bytes(&mut out, tail.as_slice());
                    proof {
                        assert(consumed =~= data@);
                        assert(out@ =~= produced + tail@);
                    }
                    Ok(out)
                },
            }
        },
    }
}

/// Opens a sealed stream that arrives piece by piece.
///
/// The opener hands out the plaintext of a segment only once the segment has
/// authenticated, and only once it knows that the segment is not the final one.
/// A failure consumes the opener: nothing more can be asked of it.
pub struct StreamOpener {
    key: [u8; 16],
    iv: [u8; 16],
    segment_size: u32,
    counter: u32,
    buf: Vec<u8>,
    consumed: Ghost<Seq<u8>>,
    produced: Ghost<Seq<u8>>,
}

impl StreamOpener {
    /// The cipher key.
    pub closed spec fn key(&self) -> Seq<u8> {
        self.key@
    }

    /// The initialization vector.
    pub closed spec fn iv(&self) -> Seq<u8> {
        self.iv@
    }

    /// The number of payload bytes in a full segment.
    pub closed spec fn segment_size(&self) -> int {
        self.segment_size as int
    }

    /// All sealed bytes handed to the opener so far.
    pub closed spec fn consumed(&self) -> Seq<u8> {
        self.consumed@
    }

    /// All plaintext handed out so far.
    pub closed spec fn produced(&self) -> Seq<u8> {
        self.produced@
    }

    /// The opener's invariant: what it handed out is the plaintext of the segments
    /// it has seen and that are followed by more of the stream.
    pub closed spec fn wf(&self) -> bool {
        &&& self.consumed@.len() > 0 ==> self.buf@.len() > 0
        &&& spec_opener_inv(
            self.key@,
            self.iv@,
            self.segment_size as int,
            self.counter as nat,
            self.buf@,
            self.consumed@,
            self.produced@,
        )
    }

    /// An opener for segments of `segment_size` bytes. A segment size of zero is
    /// refused with `ConstraintViolation`.
    pub fn new(key: [u8; 16], iv: [u8; 16], segment_size: u32) -> (res: Result<StreamOpener, Error>)
        ensures
            match res {
                Ok(opener) => {
                    &&& segment_size > 0
                    &&& opener.wf()
                    &&& opener.key() == key@
                    &&& opener.iv() == iv@
                    &&& opener.segment_size() == segment_size
                    &&& opener.consumed() == Seq::<u8>::empty()
                    &&& opener.produced() == Seq::<u8>::empty()
                },
                Err(e) => e == Error::ConstraintViolation && segment_size == 0,
            },
    {
        if segment_size == 0 {
            return Err(Error::ConstraintViolation);
        }
        let opener = StreamOpener {
            key,
            iv,
            segment_size,
            counter: 0,
            buf: Vec::new(),
            consumed: Ghost(Seq::empty()),
            produced: Ghost(Seq::empty()),
        };
        proof {
            assert(0 * (segment_size as int + 16) == 0) by (nonlinear_arith);
            assert(opener.buf@ =~= opener.consumed@.subrange(0, 0));
        }
        Ok(opener)
    }

    /// Takes the next piece of the stream and returns the plaintext of the
    /// segments that it shows not to be final. It fails with
    /// `AuthenticationFailure` exactly when one of those segments does not
    /// authenticate; the plaintext of the segments before it has then been handed
    /// out by earlier calls, and nothing of this call's is.
    pub fn update(self, chunk: &[u8]) -> (res: Result<(StreamOpener, Vec<u8>), Error>)
        requires
            self.wf(),
        ensures
            match res {
                Ok((next, out)) => {
                    &&& next.wf()
                    &&& next.key() == self.key()
                    &&& next.iv() == self.iv()
                    &&& next.segment_size() == self.segment_size()
                    &&& next.consumed() == self.consumed() + chunk@
                    &&& next.produced() == self.produced() + out@
                    &&& spec_open_full(
                        self.key(),
                        self.iv(),
                        self.segment_size(),
                        next.consumed(),
                        spec_chunks(self.segment_size(), next.consumed().len() as int) as nat,
                    ) == Some(next.produced())
                },
                Err(e) => {
                    &&& e == Error::AuthenticationFailure
                    &&& spec_open_full(
                        self.key(),
                        self.iv(),
                        self.segment_size(),
                        self.consumed() + chunk@,
                        spec_chunks(
                            self.segment_size(),
                            (self.consumed() + chunk@).len() as int,
                        ) as nat,
                    ) is None
                    &&& spec_open_stream(
                        self.key(),
                        self.iv(),
                        self.segment_size(),
                        self.consumed() + chunk@,
                    ) is None
                },
            },
    {
        let mut this = self;
        let full: u64 = this.segment_size as u64 + 16;
        let clen = chunk.len();
        let mut out: Vec<u8> = Vec::new();
        let mut pos: usize = 0;
        let ghost sg = self.segment_size as int;
        proof {
            assert(chunk@.subrange(0, 0) =~= Seq::<u8>::empty());
            assert(self.consumed@ + Seq::<u8>::empty() =~= self.consumed@);
            assert(self.produced@ + Seq::<u8>::empty() =~= self.produced@);
        }
        while pos < clen
            invariant
                spec_opener_inv(
                    this.key@,
                    this.iv@,
                    sg,
                    this.counter as nat,
                    this.buf@,
                    this.consumed@,
                    this.produced@,
                ),
                this.consumed@.len() > 0 ==> this.buf@.len() > 0,
                this.key@ == self.key@,
                this.iv@ == self.iv@,
                this.segment_size == self.segment_size,
                sg == self.segment_size,
                full == sg + 16,
                clen == chunk@.len(),
                pos <= clen,
                this.consumed@ == self.consumed@ + chunk@.subrange(0, pos as int),
                this.produced@ == self.produced@ + out@,
            decreases clen - pos,
        {
            let ghost n = this.counter as nat;
            if this.buf.len() as u64 == full {
                let ghost rest = chunk@.subrange(pos as int, clen as int);
                proof {
                    assert(this.consumed@ + rest =~= self.consumed@ + chunk@);
                }
                if this.counter == u32::MAX {
                    proof {
                        lemma_opener_fail(
                            this.key@,
                            this.iv@,
                            sg,
                            n,
                            this.buf@,
                            this.consumed@,
                            this.produced@,
                            rest,
                        );
                    }
                    return Err(Error::AuthenticationFailure);
                }
                let nonce = stream_nonce(&this.iv, this.counter, false);
                match aes128gcm_open(&this.key, &nonce, this.buf.as_slice()) {
                    None => {
                        proof {
                            lemma_opener_fail(
                                this.key@,
                                this.iv@,
                                sg,
                                n,
                                this.buf@,
                                this.consumed@,
                                this.produced@,
                                rest,
                            );
                        }
                        return Err(Error::AuthenticationFailure);
                    },
                    Some(plain) => {
                        extend_bytes(&mut out, plain.as_slice());
                        proof {
                            lemma_opener_flush(
                                this.key@,
                                this.iv@,
                                sg,
                                n,
                                this.buf@,
                                this.consumed@,
                                this.produced@,
                                plain@,
                            );
                            this.produced@ = this.produced@ + plain@;
                            assert(this.produced@ =~= self.produced@ + out@);
                        }
                        this.counter = this.counter + 1;
                        this.buf.clear();
                    },
                }
            }
            let room: u64 = full - this.buf.len() as u64;
            let remaining = clen - pos;
            let take: usize = if (remaining as u64) < room {
                remaining
            } else {
                room as usize
            };
            let ghost m = this.counter as nat;
            let ghost pending = this.buf@;
            let ghost piece = chunk@.subrange(pos as int, pos + take);
            let ghost c0 = this.consumed@;
            let ghost p0 = this.produced@;
            let mut k: usize = 0;
            while k < take
                invariant
                    k <= take,
                    pos + take <= clen,
                    clen == chunk@.len(),
                    this.buf@ == pending + chunk@.subrange(pos as int, pos + k),
                    this.key@ == self.key@,
                    this.iv@ == self.iv@,
                    this.segment_size == self.segment_size,
                    this.counter == m,
                    this.consumed@ == c0,
                    this.produced@ == p0,
                decreases take - k,
            {
                this.buf.push(chunk[pos + k]);
                k += 1;
            }
            proof {
                lemma_opener_absorb(this.key@, this.iv@, sg, m, pending, c0, p0, piece);
                assert(chunk@.subrange(0, pos + take) =~= chunk@.subrange(0, pos as int) + piece);
                this.consumed@ = c0 + piece;
                assert(this.consumed@ =~= self.consumed@ + chunk@.subrange(0, pos + take));
            }
            pos += take;
        }
        proof {
            assert(chunk@.subrange(0, clen as int) =~= chunk@);
            lemma_opener_chunks(
                this.key@,
                this.iv@,
                sg,
                this.counter as nat,
                this.buf@,
                this.consumed@,
                this.produced@,
            );
        }
        Ok((this, out))
    }

    /// Opens what is left as the final segment. With the plaintext handed out
    /// before, the result is the payload of the whole stream; it fails with
    /// `AuthenticationFailure` exactly when the stream does not open.
    pub fn finish(self) -> (res: Result<Vec<u8>, Error>)
        requires
            self.wf(),
        ensures
            match res {
                Ok(out) => spec_open_stream(
                    self.key(),
                    self.iv(),
                    self.segment_size(),
                    self.consumed(),
                ) == Some(self.produced() + out@),
                Err(e) => e == Error::AuthenticationFailure && spec_open_stream(
                    self.key(),
                    self.iv(),
                    self.segment_size(),
                    self.consumed(),
                ) is None,
            },
    {
        proof {
            lemma_opener_chunks(
                self.key@,
                self.iv@,
                self.segment_size as int,
                self.counter as nat,
                self.buf@,
                self.consumed@,
                self.produced@,
            );
        }
        let nonce = stream_nonce(&self.iv, self.counter, true);
        match aes128gcm_open(&self.key, &nonce, self.buf.as_slice()) {
            None => Err(Error::AuthenticationFailure),
            Some(out) => Ok(out),
        }
    }
}

/// Opens a whole sealed stream. A segment size of zero is refused with
/// `ConstraintViolation`; a stream that does not authenticate in every segment
/// fails with `AuthenticationFailure`, and no plaintext is returned.
pub fn open_stream(key: [u8; 16], iv: [u8; 16], segment_size: u32, stream: &[u8]) -> (res: Result<
    Vec<u8>,
    Error,
>)
    ensures
        match res {
            Ok(out) => segment_size > 0 && spec_open_stream(
                key@,
                iv@,
                segment_size as int,
                stream@,
            ) == Some(out@),
            Err(e) => if segment_size == 0 {
                e == Error::ConstraintViolation
            } else {
                e == Error::AuthenticationFailure && spec_open_stream(
                    key@,
                    iv@,
                    segment_size as int,
                    stream@,
                ) is None
            },
        },
{
    match StreamOpener::new(key, iv, segment_size) {
        Err(e) => Err(e),
        Ok(opener) => {
            proof {
                assert(Seq::<u8>::empty() + stream@ =~= stream@);
            }
            match opener.update(stream) {
                Err(e) => Err(e),
                Ok((next, head)) => {
                    let ghost produced = next.produced();
                    match next.finish() {
                        Err(e) => Err(e),
                        Ok(tail) => {
                            let mut out = head;
                            extend_bytes(&mut out, tail.as_slice());
                            proof {
                                assert(out@ =~= produced + tail@);
                            }
                            Ok(out)
                        },
                    }
                },
            }
        },
    }
}

} // verus!

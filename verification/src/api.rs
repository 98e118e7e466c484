//! The messages exchanged with a private key generator, and the rules that
//! govern them.

use crate::artifacts::{PublicKey, SecretKey, UserSecretKey};
use crate::error::Error;
use crate::identity::{
    clone_con,
    con_view,
    spec_policy_encodable,
    Attribute,
    AttributeView,
    Policy,
    PolicyView,
};
use crate::kem::kem_extract_usk;
use crate::util::str_eq;
use rand::rngs::StdRng;
use vstd::prelude::*;

verus! {

/// Longest validity, in seconds, of a request for a decryption key: one day.
pub const MAX_VALIDITY: u64 = 86400;

/// Longest validity, in seconds, of a request for a signing key: a hundred days.
pub const MAX_VALIDITY_SIGN: u64 = 8640000;

/// Validity, in seconds, of a request that names none: five minutes.
pub const DEFAULT_VALIDITY: u64 = 300;

/// Time between two polls, in milliseconds.
pub const POLL_INTERVAL_MS: u64 = 500;

/// Number of polls after which a session that has not ended is given up.
pub const POLL_ATTEMPTS: u32 = 120;

/// The public parameters of a private key generator.
#[derive(Debug, Clone, Copy)]
pub struct Parameters {
    pub format_version: u8,
    pub public_key: PublicKey,
}

/// A request for the user secret key of an identity.
#[derive(Debug)]
pub struct KeyRequest {
    /// The attributes that the requester will disclose.
    pub con: Vec<Attribute>,
    /// The requested validity in seconds, if any.
    pub validity: Option<u64>,
}

/// The state of a disclosure session.
#[derive(Debug, Clone, Copy, PartialEq, Eq, Structural)]
pub enum SessionStatus {
    Initialized,
    Pairing,
    Connected,
    Cancelled,
    Done,
    Timeout,
}

/// The verdict on the proof of a finished session.
#[derive(Debug, Clone, Copy, PartialEq, Eq, Structural)]
pub enum ProofStatus {
    Valid,
    Invalid,
    InvalidTimestamp,
    UnmatchedRequest,
    MissingAttributes,
    Expired,
}

/// The answer to a key request.
#[derive(Debug, Clone, Copy)]
pub struct KeyResponse {
    /// The state of the session.
    pub status: SessionStatus,
    /// The verdict on the proof, once there is one.
    pub proof_status: Option<ProofStatus>,
    /// The key, present only once the session is done and the proof valid.
    pub key: Option<UserSecretKey>,
}

/// The validity that a request is granted: the default where it names none, the
/// requested one where it is within the limit, and a `ValidityError` beyond.
pub open spec fn spec_validity(requested: Option<u64>, signing: bool) -> Result<u64, Error> {
    let limit = if signing {
        MAX_VALIDITY_SIGN
    } else {
        MAX_VALIDITY
    };
    match requested {
        None => Ok(DEFAULT_VALIDITY),
        Some(v) => if v > limit {
            Err(Error::ValidityError)
        } else {
            Ok(v)
        },
    }
}

/// A request for a decryption key that asks for more than 86400 seconds is
/// refused with `ValidityError`; one that asks for no more is granted what it
/// asks for; one that names no validity is granted 300 seconds.
pub proof fn lemma_validity_rule(requested: Option<u64>)
    ensures
        match requested {
            Some(v) => if v > 86400 {
                spec_validity(requested, false) == Err::<u64, Error>(Error::ValidityError)
            } else {
                spec_validity(requested, false) == Ok::<u64, Error>(v)
            },
            None => spec_validity(requested, false) == Ok::<u64, Error>(300),
        },
{
}

/// Decides the validity of a request.
pub fn check_validity(requested: Option<u64>, signing: bool) -> (res: Result<u64, Error>)
    ensures
        res == spec_validity(requested, signing),
{
    let limit = if signing {
        MAX_VALIDITY_SIGN
    } else {
        MAX_VALIDITY
    };
    match requested {
        None => Ok(DEFAULT_VALIDITY),
        Some(v) => if v > limit {
            Err(Error::ValidityError)
        } else {
            Ok(v)
        },
    }
}

/// Whether a disclosed attribute answers a requested one: the types agree, and
/// so do the values where the request names one.
pub open spec fn spec_attr_answers(requested: AttributeView, disclosed: AttributeView) -> bool {
    &&& disclosed.atype == requested.atype
    &&& requested.value is Some ==> disclosed.value == requested.value
}

/// Whether some disclosed attribute answers the requested one.
pub open spec fn spec_answered(requested: AttributeView, disclosed: Seq<AttributeView>) -> bool {
    exists|j: int| 0 <= j < disclosed.len() && #[trigger] spec_attr_answers(requested, disclosed[j])
}

/// Whether every requested attribute is answered by a disclosed one.
pub open spec fn spec_attributes_match(
    requested: Seq<AttributeView>,
    disclosed: Seq<AttributeView>,
) -> bool {
    forall|i: int| 0 <= i < requested.len() ==> spec_answered(#[trigger] requested[i], disclosed)
}

/// Reports whether a disclosed attribute answers a requested one.
fn attr_answers(requested: &Attribute, disclosed: &Attribute) -> (answers: bool)
    ensures
        answers == spec_attr_answers(requested@, disclosed@),
{
    if !str_eq(disclosed.atype.as_str(), requested.atype.as_str()) {
        return false;
    }
    match &requested.value {
        None => true,
        Some(want) => match &disclosed.value {
            None => false,
            Some(got) => str_eq(got.as_str(), want.as_str()),
        },
    }
}

/// Reports whether some disclosed attribute answers the requested one.
fn answered(requested: &Attribute, disclosed: &Vec<Attribute>) -> (found: bool)
    ensures
        found == spec_answered(requested@, con_view(disclosed@)),
{
    let ghost dv = con_view(disclosed@);
    let mut j: usize = 0;
    while j < disclosed.len()
        invariant
            j <= disclosed@.len(),
            dv == con_view(disclosed@),
            forall|k: int| 0 <= k < j ==> !spec_attr_answers(requested@, #[trigger] dv[k]),
        decreases disclosed@.len() - j,
    {
        if attr_answers(requested, &disclosed[j]) {
            assert(spec_attr_answers(requested@, dv[j as int]));
            return true;
        }
        j += 1;
    }
    false
}

/// Reports whether every requested attribute is answered by a disclosed one.
pub fn attributes_match(requested: &Vec<Attribute>, disclosed: &Vec<Attribute>) -> (matched: bool)
    ensures
        matched == spec_attributes_match(con_view(requested@), con_view(disclosed@)),
{
    let ghost rv = con_view(requested@);
    let ghost dv = con_view(disclosed@);
    let mut i: usize = 0;
    while i < requested.len()
        invariant
            i <= requested@.len(),
            rv == con_view(requested@),
            dv == con_view(disclosed@),
            forall|a: int| 0 <= a < i ==> spec_answered(#[trigger] rv[a], dv),
        decreases requested@.len() - i,
    {
        if !answered(&requested[i], disclosed) {
            assert(!spec_answered(rv[i as int], dv));
            return false;
        }
        i += 1;
    }
    true
}

/// Whether the token of a session can be had: the session is done and its proof
/// is valid.
pub open spec fn spec_token_available(
    status: SessionStatus,
    proof_status: Option<ProofStatus>,
) -> bool {
    status == SessionStatus::Done && proof_status == Some(ProofStatus::Valid)
}

/// Reports whether the token of a session can be had.
pub fn token_available(status: SessionStatus, proof_status: Option<ProofStatus>) -> (available:
    bool)
    ensures
        available == spec_token_available(status, proof_status),
{
    let done = match status {
        SessionStatus::Done => true,
        _ => false,
    };
    let valid = match proof_status {
        Some(ProofStatus::Valid) => true,
        _ => false,
    };
    done && valid
}

/// Whether a key is released: the session is done, its proof is valid, and the
/// disclosed attributes answer the request.
pub open spec fn spec_key_released(
    status: SessionStatus,
    proof_status: Option<ProofStatus>,
    matched: bool,
) -> bool {
    status == SessionStatus::Done && proof_status == Some(ProofStatus::Valid) && matched
}

/// Answers a key request. The key is present exactly when it is released; it is
/// then extracted for the identity of the requested attributes at `timestamp`,
/// and is random. Where the key is released but that policy has no canonical
/// encoding, the answer is a `ConstraintViolation`. Where no key is extracted,
/// the generator is left as it was.
pub fn issue_key(
    sk: &SecretKey,
    status: SessionStatus,
    proof_status: Option<ProofStatus>,
    requested: &Vec<Attribute>,
    disclosed: &Vec<Attribute>,
    timestamp: u64,
    rng: &mut StdRng,
) -> (res: Result<KeyResponse, Error>)
    ensures
        ({
            let released = spec_key_released(
                status,
                proof_status,
                spec_attributes_match(con_view(requested@), con_view(disclosed@)),
            );
            let policy = PolicyView { timestamp, con: con_view(requested@) };
            match res {
                Ok(response) => {
                    &&& response.status == status
                    &&& response.proof_status == proof_status
                    &&& response.key is Some <==> released
                    &&& released ==> spec_policy_encodable(policy)
                },
                Err(e) => e == Error::ConstraintViolation && released && !spec_policy_encodable(
                    policy,
                ),
            }
        }),
        !(res matches Ok(response) && response.key is Some) ==> *final(rng) == *old(rng),
{
    let done = match status {
        SessionStatus::Done => true,
        _ => false,
    };
    let valid = match proof_status {
        Some(ProofStatus::Valid) => true,
        _ => false,
    };
    if !(done && valid && attributes_match(requested, disclosed)) {
        return Ok(KeyResponse { status, proof_status, key: None });
    }
    let policy = Policy { timestamp, con: clone_con(requested) };
    match policy.derive() {
        Err(e) => Err(e),
        Ok(id) => {
            let sk_bytes = sk.to_bytes();
            let usk = UserSecretKey::from_valid(kem_extract_usk(&sk_bytes, &id, rng));
            Ok(KeyResponse { status, proof_status, key: Some(usk) })
        },
    }
}

/// What a caller does after a poll.
#[derive(Debug, Clone, Copy)]
pub enum PollAction {
    /// Wait for the polling interval, then poll again.
    Wait,
    /// The key was released.
    Deliver(UserSecretKey),
    /// Give up with this error.
    Fail(Error),
}

/// Whether a session in this state may still end well.
pub open spec fn spec_is_pending(status: SessionStatus) -> bool {
    status == SessionStatus::Initialized || status == SessionStatus::Pairing || status
        == SessionStatus::Connected
}

/// The action after the poll number `attempt` (counted from one) was answered
/// with `response`: a key that was released is delivered; a session that ended
/// otherwise fails with `SessionFailure`; a session that has not ended is polled
/// again, unless this was the last attempt, which fails with `Timeout`.
pub open spec fn spec_poll(attempt: u32, response: KeyResponse) -> PollAction {
    if response.status == SessionStatus::Done {
        if response.proof_status == Some(ProofStatus::Valid) && response.key is Some {
            PollAction::Deliver(response.key->Some_0)
        } else {
            PollAction::Fail(Error::SessionFailure)
        }
    } else if spec_is_pending(response.status) {
        if attempt >= POLL_ATTEMPTS {
            PollAction::Fail(Error::Timeout)
        } else {
            PollAction::Wait
        }
    } else {
        PollAction::Fail(Error::SessionFailure)
    }
}

/// The caller's side of a key request: counts the polls and decides after each
/// answer what to do next.
#[derive(Debug, Clone, Copy)]
pub struct Poller {
    attempts: u32,
}

impl Poller {
    /// The number of polls answered so far.
    pub closed spec fn attempts(&self) -> u32 {
        self.attempts
    }

    /// A poller that has not polled yet.
    pub fn new() -> (poller: Poller)
        ensures
            poller.attempts() == 0,
    {
        Poller { attempts: 0 }
    }

    /// Takes the answer to the next poll and decides what to do. After an answer
    /// that does not ask to wait, and after the last attempt, the session is
    /// over: the poller then only repeats `Timeout`.
    pub fn step(&mut self, response: &KeyResponse) -> (action: PollAction)
        ensures
            if old(self).attempts() >= POLL_ATTEMPTS {
                &&& action == PollAction::Fail(Error::Timeout)
                &&& final(self).attempts() == old(self).attempts()
            } else {
                &&& action == spec_poll((old(self).attempts() + 1) as u32, *response)
                &&& final(self).attempts() == old(self).attempts() + 1
            },
    {
        if self.attempts >= POLL_ATTEMPTS {
            return PollAction::Fail(Error::Timeout);
        }
        self.attempts = self.attempts + 1;
        match response.status {
            SessionStatus::Done => {
                let valid = match response.proof_status {
                    Some(ProofStatus::Valid) => true,
                    _ => false,
                };
                match response.key {
                    Some(key) => if valid {
                        PollAction::Deliver(key)
                    } else {
                        PollAction::Fail(Error::SessionFailure)
                    },
                    None => PollAction::Fail(Error::SessionFailure),
                }
            },
            SessionStatus::Initialized | SessionStatus::Pairing | SessionStatus::Connected => {
                if self.attempts >= POLL_ATTEMPTS {
                    PollAction::Fail(Error::Timeout)
                } else {
                    PollAction::Wait
                }
            },
            SessionStatus::Cancelled | SessionStatus::Timeout => PollAction::Fail(
                Error::SessionFailure,
            ),
        }
    }
}

} // verus!

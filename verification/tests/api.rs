use irmaseal::api::{
    attributes_match, check_validity, issue_key, token_available, KeyRequest, KeyResponse, PollAction, Poller,
    ProofStatus, SessionStatus, DEFAULT_VALIDITY, MAX_VALIDITY, MAX_VALIDITY_SIGN, POLL_ATTEMPTS,
    POLL_INTERVAL_MS,
};
use irmaseal::error::Error;
use irmaseal::handlers::start::start;
use irmaseal::identity::Attribute;
use irmaseal::test_common::TestSetup;
use rand::rngs::StdRng;
use rand::SeedableRng;

fn response(status: SessionStatus, proof_status: Option<ProofStatus>, with_key: bool) -> KeyResponse {
    let key = if with_key { Some(TestSetup::default().usks[0].1) } else { None };
    KeyResponse { status, proof_status, key }
}

#[test]
fn validity_limits() {
    assert_eq!(MAX_VALIDITY, 86400);
    assert_eq!(MAX_VALIDITY_SIGN, 8_640_000);
    assert_eq!(DEFAULT_VALIDITY, 300);
    assert_eq!(check_validity(Some(86401), false), Err(Error::ValidityError));
    assert_eq!(check_validity(Some(86400), false), Ok(86400));
    assert_eq!(check_validity(None, false), Ok(300));
    assert_eq!(check_validity(Some(0), false), Ok(0));
    assert_eq!(check_validity(Some(1), false), Ok(1));
    assert_eq!(check_validity(Some(u64::MAX), false), Err(Error::ValidityError));
}

#[test]
fn validity_limits_for_signing_keys() {
    assert_eq!(check_validity(Some(86401), true), Ok(86401));
    assert_eq!(check_validity(Some(8_640_000), true), Ok(8_640_000));
    assert_eq!(check_validity(Some(8_640_001), true), Err(Error::ValidityError));
    assert_eq!(check_validity(None, true), Ok(300));
}

#[test]
fn start_asks_for_every_attribute_with_a_value() {
    let kr = KeyRequest {
        con: vec![Attribute::new("email", Some("a@ex")), Attribute::new("name", None)],
        validity: Some(86400),
    };
    let session = start(&kr, false).unwrap();
    assert_eq!(session.validity, 86400);
    assert_eq!(session.discons.len(), 2);
    for (discon, attr) in session.discons.iter().zip(kr.con.iter()) {
        assert_eq!(discon.len(), 1);
        assert_eq!(discon[0].len(), 1);
        assert_eq!(discon[0][0].attr_type, attr.atype);
        assert_eq!(discon[0][0].value, attr.value);
        assert!(discon[0][0].not_null);
    }
}

#[test]
fn start_applies_the_validity_rule() {
    let mut kr = KeyRequest { con: vec![Attribute::new("email", Some("a@ex"))], validity: Some(86401) };
    assert!(matches!(start(&kr, false), Err(Error::ValidityError)));
    assert_eq!(start(&kr, true).unwrap().validity, 86401);
    kr.validity = Some(86400);
    assert_eq!(start(&kr, false).unwrap().validity, 86400);
    kr.validity = None;
    assert_eq!(start(&kr, false).unwrap().validity, 300);
    kr.validity = Some(8_640_001);
    assert!(matches!(start(&kr, true), Err(Error::ValidityError)));
}

#[test]
fn start_of_an_empty_request() {
    let kr = KeyRequest { con: vec![], validity: None };
    let session = start(&kr, false).unwrap();
    assert!(session.discons.is_empty());
    assert_eq!(session.validity, 300);
}

#[test]
fn disclosed_attributes_must_answer_every_requested_one() {
    let requested = vec![Attribute::new("email", Some("a@ex")), Attribute::new("name", Some("al"))];
    let exact = requested.clone();
    assert!(attributes_match(&requested, &exact));
    let reordered = vec![Attribute::new("name", Some("al")), Attribute::new("email", Some("a@ex"))];
    assert!(attributes_match(&requested, &reordered));
    let more = vec![
        Attribute::new("age", Some("9")),
        Attribute::new("name", Some("al")),
        Attribute::new("email", Some("a@ex")),
    ];
    assert!(attributes_match(&requested, &more));
    let missing = vec![Attribute::new("email", Some("a@ex"))];
    assert!(!attributes_match(&requested, &missing));
    let other_value = vec![Attribute::new("email", Some("b@ex")), Attribute::new("name", Some("al"))];
    assert!(!attributes_match(&requested, &other_value));
    let hidden = vec![Attribute::new("email", None), Attribute::new("name", Some("al"))];
    assert!(!attributes_match(&requested, &hidden));
    assert!(attributes_match(&[].to_vec(), &missing));
    assert!(!attributes_match(&requested, &[].to_vec()));
}

#[test]
fn a_request_without_value_is_answered_by_any_value_of_the_type() {
    let requested = vec![Attribute::new("email", None)];
    assert!(attributes_match(&requested, &vec![Attribute::new("email", Some("x"))]));
    assert!(attributes_match(&requested, &vec![Attribute::new("email", None)]));
    assert!(!attributes_match(&requested, &vec![Attribute::new("mail", Some("x"))]));
}

#[test]
fn key_is_released_only_when_done_valid_and_matching() {
    let mut rng = StdRng::seed_from_u64(21);
    let setup = TestSetup::new(&mut rng);
    let requested = vec![Attribute::new("testattribute", Some("testvalue"))];
    let statuses = [
        SessionStatus::Initialized,
        SessionStatus::Pairing,
        SessionStatus::Connected,
        SessionStatus::Cancelled,
        SessionStatus::Done,
        SessionStatus::Timeout,
    ];
    let proofs = [
        None,
        Some(ProofStatus::Valid),
        Some(ProofStatus::Invalid),
        Some(ProofStatus::InvalidTimestamp),
        Some(ProofStatus::UnmatchedRequest),
        Some(ProofStatus::MissingAttributes),
        Some(ProofStatus::Expired),
    ];
    let disclosures = [
        vec![Attribute::new("testattribute", Some("testvalue"))],
        vec![Attribute::new("testattribute", Some("anothervalue"))],
    ];
    for status in statuses {
        for proof in proofs {
            for (k, disclosed) in disclosures.iter().enumerate() {
                let r = issue_key(&setup.msk, status, proof, &requested, disclosed, 5, &mut rng).unwrap();
                assert_eq!(r.status, status);
                assert_eq!(r.proof_status, proof);
                let released =
                    status == SessionStatus::Done && proof == Some(ProofStatus::Valid) && k == 0;
                assert_eq!(r.key.is_some(), released);
            }
        }
    }
}

#[test]
fn released_key_without_canonical_policy_is_a_constraint_violation() {
    let mut rng = StdRng::seed_from_u64(22);
    let setup = TestSetup::new(&mut rng);
    let long = "x".repeat(65536);
    let requested = vec![Attribute::new(&long, None)];
    let r = issue_key(
        &setup.msk,
        SessionStatus::Done,
        Some(ProofStatus::Valid),
        &requested,
        &requested,
        5,
        &mut rng,
    );
    assert!(matches!(r, Err(Error::ConstraintViolation)));
    let r = issue_key(&setup.msk, SessionStatus::Done, None, &requested, &requested, 5, &mut rng);
    assert!(r.unwrap().key.is_none());
}

#[test]
fn polling_waits_while_pending_and_delivers_when_valid() {
    let mut poller = Poller::new();
    assert!(matches!(poller.step(&response(SessionStatus::Initialized, None, false)), PollAction::Wait));
    assert!(matches!(poller.step(&response(SessionStatus::Pairing, None, false)), PollAction::Wait));
    assert!(matches!(poller.step(&response(SessionStatus::Connected, None, false)), PollAction::Wait));
    let done = response(SessionStatus::Done, Some(ProofStatus::Valid), true);
    match poller.step(&done) {
        PollAction::Deliver(key) => assert_eq!(key.to_bytes(), done.key.unwrap().to_bytes()),
        other => panic!("unexpected action {:?}", other),
    }
}

#[test]
fn polling_reports_a_session_failure_for_an_invalid_proof() {
    let mut poller = Poller::new();
    assert!(matches!(poller.step(&response(SessionStatus::Initialized, None, false)), PollAction::Wait));
    let invalid = response(SessionStatus::Done, Some(ProofStatus::Invalid), false);
    assert!(matches!(poller.step(&invalid), PollAction::Fail(Error::SessionFailure)));
}

#[test]
fn polling_reports_a_session_failure_for_ended_sessions() {
    for status in [SessionStatus::Cancelled, SessionStatus::Timeout] {
        let mut poller = Poller::new();
        assert!(matches!(
            poller.step(&response(status, None, false)),
            PollAction::Fail(Error::SessionFailure)
        ));
    }
    let mut poller = Poller::new();
    assert!(matches!(
        poller.step(&response(SessionStatus::Done, Some(ProofStatus::Valid), false)),
        PollAction::Fail(Error::SessionFailure)
    ));
    let mut poller = Poller::new();
    assert!(matches!(
        poller.step(&response(SessionStatus::Done, None, true)),
        PollAction::Fail(Error::SessionFailure)
    ));
    let mut poller = Poller::new();
    assert!(matches!(
        poller.step(&response(SessionStatus::Done, Some(ProofStatus::Expired), true)),
        PollAction::Fail(Error::SessionFailure)
    ));
}

#[test]
fn polling_times_out_at_the_ceiling() {
    assert_eq!(POLL_ATTEMPTS, 120);
    assert_eq!(POLL_INTERVAL_MS, 500);
    let pending = response(SessionStatus::Connected, None, false);
    let mut poller = Poller::new();
    for _ in 0..119 {
        assert!(matches!(poller.step(&pending), PollAction::Wait));
    }
    assert!(matches!(poller.step(&pending), PollAction::Fail(Error::Timeout)));
    // and stays over
    let done = response(SessionStatus::Done, Some(ProofStatus::Valid), true);
    assert!(matches!(poller.step(&done), PollAction::Fail(Error::Timeout)));
}

#[test]
fn the_last_attempt_can_still_deliver() {
    let pending = response(SessionStatus::Initialized, None, false);
    let mut poller = Poller::new();
    for _ in 0..119 {
        assert!(matches!(poller.step(&pending), PollAction::Wait));
    }
    let done = response(SessionStatus::Done, Some(ProofStatus::Valid), true);
    assert!(matches!(poller.step(&done), PollAction::Deliver(_)));
}

#[test]
fn token_is_available_only_when_done_and_valid() {
    assert!(token_available(SessionStatus::Done, Some(ProofStatus::Valid)));
    assert!(!token_available(SessionStatus::Done, Some(ProofStatus::Invalid)));
    assert!(!token_available(SessionStatus::Done, None));
    assert!(!token_available(SessionStatus::Connected, Some(ProofStatus::Valid)));
    assert!(!token_available(SessionStatus::Cancelled, None));
    assert!(!token_available(SessionStatus::Timeout, Some(ProofStatus::Valid)));
}

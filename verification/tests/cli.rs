use irmaseal::cli::{
    client_version, key_request_for, now, output_name, policies_at, strip_extension,
};
use irmaseal::error::Error;
use irmaseal::identity::{Attribute, HiddenPolicy};

#[test]
fn now_is_later_than_the_year_2020() {
    let t = now().unwrap();
    assert!(t > 1_577_836_800);
    assert!(now().unwrap() >= t);
}

#[test]
fn policies_share_the_timestamp() {
    let recipients = vec![
        ("alice".to_string(), vec![Attribute::new("email", Some("a@ex"))]),
        ("bob".to_string(), vec![Attribute::new("name", Some("bob")), Attribute::new("x", None)]),
        ("nobody".to_string(), vec![]),
    ];
    let policies = policies_at(1700000000, recipients.clone());
    assert_eq!(policies.len(), 3);
    for (policy, recipient) in policies.iter().zip(recipients.iter()) {
        assert_eq!(policy.0, recipient.0);
        assert_eq!(policy.1.timestamp, 1700000000);
        assert_eq!(policy.1.con, recipient.1);
    }
    assert!(policies_at(5, vec![]).is_empty());
}

#[test]
fn output_name_adds_the_extension() {
    assert_eq!(output_name("report.pdf"), "report.pdf.irma");
    assert_eq!(output_name(""), ".irma");
    assert_eq!(output_name("ü"), "ü.irma");
}

#[test]
fn strip_extension_takes_it_off_again() {
    assert_eq!(strip_extension("report.pdf.irma"), Some("report.pdf".to_string()));
    assert_eq!(strip_extension(".irma"), Some("".to_string()));
    assert_eq!(strip_extension("ü.irma"), Some("ü".to_string()));
    assert_eq!(strip_extension("report.pdf"), None);
    assert_eq!(strip_extension("report.IRMA"), None);
    assert_eq!(strip_extension("irma"), None);
    assert_eq!(strip_extension(""), None);
    assert_eq!(strip_extension("report.irma "), None);
    for name in ["a", "a.b", "x.irma.y"] {
        assert_eq!(strip_extension(&output_name(name)), Some(name.to_string()));
    }
}

#[test]
fn key_request_fills_in_the_entered_values() {
    let policy = HiddenPolicy {
        timestamp: 9,
        con: vec![Attribute::new("email", None), Attribute::new("name", None)],
    };
    let values = vec![Some("a@ex".to_string()), None];
    let kr = key_request_for(&policy, &values).unwrap();
    assert_eq!(kr.validity, None);
    assert_eq!(kr.con, vec![Attribute::new("email", Some("a@ex")), Attribute::new("name", None)]);
    assert!(key_request_for(&policy, &vec![None]).is_none());
    assert!(key_request_for(&policy, &vec![None, None, None]).is_none());
    let empty = HiddenPolicy { timestamp: 9, con: vec![] };
    assert!(key_request_for(&empty, &vec![]).unwrap().con.is_empty());
}

#[test]
fn client_version_falls_back_to_unknown() {
    assert_eq!(client_version(Some("host,1.0,cli,0.1")), "host,1.0,cli,0.1");
    assert_eq!(client_version(Some("")), "");
    assert_eq!(client_version(None), "unknown");
}

#[test]
fn every_error_has_its_description() {
    let all = [
        (Error::FormatViolation, "format violation"),
        (Error::ConstraintViolation, "constraint violation"),
        (Error::Kem, "key encapsulation failure"),
        (Error::AuthenticationFailure, "authentication failure"),
        (Error::ValidityError, "validity exceeds the maximum"),
        (Error::SessionFailure, "session failure"),
        (Error::IoError, "input/output error"),
        (Error::Timeout, "timeout"),
    ];
    for (error, text) in all {
        assert_eq!(error.describe(), text);
    }
}

//! What the command-line front ends decide, apart from the reading and writing
//! they do.

use crate::api::KeyRequest;
use crate::identity::{con_view, Attribute, AttributeView, HiddenPolicy, Policy};
use crate::metadata::ser::opt_text_view;
use std::time::{Duration, SystemTime};
use vstd::prelude::*;
use vstd::string::StringExecFns;
use vstd::utf8::{encode_utf8, is_char_boundary};

verus! {

/// The extension of an envelope's file name, with its dot: `.irma`.
pub const EXTENSION: [u8; 5] = [0x2e, 0x69, 0x72, 0x6d, 0x61];

/// The system clock's point in time, which is opaque here.
#[verifier::external_type_specification]
#[verifier::external_body]
pub struct ExSystemTime(SystemTime);

/// Calls `SystemTime::now`. Nothing is claimed of the result.
#[verifier::external_body]
fn clock_now() -> SystemTime {
    SystemTime::now()
}

/// Calls `SystemTime::duration_since` with the epoch: the time that has passed
/// since then, or `None` where `t` stands before it. Nothing is claimed of the
/// result.
#[verifier::external_body]
fn since_epoch(t: &SystemTime) -> Option<Duration> {
    t.duration_since(SystemTime::UNIX_EPOCH).ok()
}

/// Calls `Duration::as_secs`: the whole seconds of the duration. Nothing is
/// claimed of the result.
#[verifier::external_body]
fn whole_seconds(d: &Duration) -> u64 {
    d.as_secs()
}

/// The current time in whole seconds since the epoch, as the system clock gives
/// it, or `None` where the clock stands before the epoch.
pub fn now() -> Option<u64> {
    let t = clock_now();
    match since_epoch(&t) {
        Some(d) => Some(whole_seconds(&d)),
        None => None,
    }
}

/// Whether the policies are the given conjunctions, each under its identifier and
/// at the given timestamp.
pub open spec fn spec_policies_at(
    policies: Seq<(String, Policy)>,
    timestamp: u64,
    recipients: Seq<(String, Vec<Attribute>)>,
) -> bool {
    &&& policies.len() == recipients.len()
    &&& forall|i: int|
        0 <= i < recipients.len() ==> {
            &&& (#[trigger] policies[i]).0@ == recipients[i].0@
            &&& policies[i].1.timestamp == timestamp
            &&& con_view(policies[i].1.con@) == con_view(recipients[i].1@)
        }
}

/// Makes a policy of every recipient's conjunction, all at the same timestamp.
pub fn policies_at(timestamp: u64, recipients: Vec<(String, Vec<Attribute>)>) -> (policies: Vec<
    (String, Policy),
>)
    ensures
        spec_policies_at(policies@, timestamp, recipients@),
{
    let mut policies: Vec<(String, Policy)> = Vec::new();
    let mut i: usize = 0;
    while i < recipients.len()
        invariant
            i <= recipients@.len(),
            policies@.len() == i,
            forall|j: int|
                0 <= j < i ==> {
                    &&& (#[trigger] policies@[j]).0@ == recipients@[j].0@
                    &&& policies@[j].1.timestamp == timestamp
                    &&& con_view(policies@[j].1.con@) == con_view(recipients@[j].1@)
                },
        decreases recipients@.len() - i,
    {
        let entry = &recipients[i];
        policies.push(
            (entry.0.clone(), Policy { timestamp, con: crate::identity::clone_con(&entry.1) }),
        );
        i += 1;
    }
    policies
}

/// The name of the envelope that is written for the file `name`: the name with
/// the extension added.
pub fn output_name(name: &str) -> (out: String)
    ensures
        out@ == name@ + ".irma"@,
{
    let mut out = name.to_owned();
    out.append(".irma");
    out
}

/// Whether the bytes end with the extension.
pub open spec fn spec_has_extension(bytes: Seq<u8>) -> bool {
    bytes.len() >= 5 && bytes.subrange(bytes.len() - 5, bytes.len() as int) == EXTENSION@
}

/// The name of the file that an envelope named `name` is opened to: the name
/// without the extension, or `None` where the name does not end with it.
pub fn strip_extension(name: &str) -> (stem: Option<String>)
    ensures
        match stem {
            Some(s) => spec_has_extension(encode_utf8(name@)) && encode_utf8(s@) == encode_utf8(
                name@,
            ).subrange(0, encode_utf8(name@).len() - 5),
            None => !spec_has_extension(encode_utf8(name@)) || !is_char_boundary(
                encode_utf8(name@),
                encode_utf8(name@).len() - 5,
            ),
        },
{
    let bytes = name.as_bytes();
    let len = bytes.len();
    if len < 5 {
        return None;
    }
    let mut i: usize = 0;
    while i < 5
        invariant
            i <= 5,
            len == bytes@.len(),
            len >= 5,
            bytes@ == encode_utf8(name@),
            forall|j: int| 0 <= j < i ==> bytes@[len - 5 + j] == EXTENSION@[j],
        decreases 5 - i,
    {
        if bytes[len - 5 + i] != EXTENSION[i] {
            assert(bytes@.subrange(len - 5, len as int)[i as int] == bytes@[len - 5 + i]);
            return None;
        }
        i += 1;
    }
    assert(bytes@.subrange(len - 5, len as int) =~= EXTENSION@);
    if !name.is_char_boundary(len - 5) {
        return None;
    }
    let (stem, _) = name.split_at(len - 5);
    Some(stem.to_owned())
}

/// Whether the attributes are those of the hidden policy, each with the value
/// entered for it.
pub open spec fn spec_filled(
    con: Seq<AttributeView>,
    hidden: Seq<AttributeView>,
    values: Seq<Option<String>>,
) -> bool {
    &&& con.len() == hidden.len()
    &&& forall|i: int|
        0 <= i < hidden.len() ==> {
            &&& (#[trigger] con[i]).atype == hidden[i].atype
            &&& con[i].value == opt_text_view(values[i])
        }
}

/// The key request of a recipient: the attributes of the hidden policy, in
/// order, each with the value that the recipient entered for it. `None` where
/// the number of values is not that of the attributes.
pub fn key_request_for(policy: &HiddenPolicy, values: &Vec<Option<String>>) -> (request: Option<
    KeyRequest,
>)
    ensures
        match request {
            Some(kr) => values@.len() == policy.con@.len() && kr.validity is None && spec_filled(
                con_view(kr.con@),
                policy@.con,
                values@,
            ),
            None => values@.len() != policy.con@.len(),
        },
{
    if values.len() != policy.con.len() {
        return None;
    }
    let mut con: Vec<Attribute> = Vec::new();
    let mut i: usize = 0;
    while i < policy.con.len()
        invariant
            i <= policy.con@.len(),
            values@.len() == policy.con@.len(),
            con@.len() == i,
            forall|j: int|
                0 <= j < i ==> {
                    &&& (#[trigger] con@[j])@.atype == policy.con@[j]@.atype
                    &&& con@[j]@.value == opt_text_view(values@[j])
                },
        decreases policy.con@.len() - i,
    {
        let value = match &values[i] {
            Some(v) => Some(v.clone()),
            None => None,
        };
        con.push(Attribute { atype: policy.con[i].atype.clone(), value });
        i += 1;
    }
    Some(KeyRequest { con, validity: None })
}

/// What a request says of its sender's version: the value of its header, or
/// `unknown` where it has none that is text.
pub fn client_version(header: Option<&str>) -> (version: String)
    ensures
        version@ == (match header {
            Some(v) => v@,
            None => "unknown"@,
        }),
{
    match header {
        Some(v) => v.to_owned(),
        None => "unknown".to_owned(),
    }
}

} // verus!

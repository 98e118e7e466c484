//! Starting a disclosure session for a key request.

use crate::api::{check_validity, spec_validity, KeyRequest};
use crate::error::Error;
use crate::identity::{con_view, Attribute, AttributeView};
use vstd::prelude::*;

verus! {

/// One attribute that a session asks the requester to disclose.
#[derive(Debug)]
pub struct AttributeRequest {
    /// The attribute's type identifier.
    pub attr_type: String,
    /// The value that must be disclosed, if a particular one is asked for.
    pub value: Option<String>,
    /// Whether the disclosed value may not be empty.
    pub not_null: bool,
}

/// What a key request asks of the disclosure service: for every attribute a
/// disjunction of conjunctions, and the validity of the resulting token.
#[derive(Debug)]
pub struct SessionRequest {
    /// The validity of the token, in seconds.
    pub validity: u64,
    /// One disjunction per requested attribute.
    pub discons: Vec<Vec<Vec<AttributeRequest>>>,
}

/// Whether a disjunction asks for exactly the attribute `a`, with a value that
/// is not empty.
pub open spec fn spec_asks_for(discon: Vec<Vec<AttributeRequest>>, a: AttributeView) -> bool {
    &&& discon@.len() == 1
    &&& discon@[0]@.len() == 1
    &&& discon@[0]@[0].attr_type@ == a.atype
    &&& (match discon@[0]@[0].value {
        Some(v) => a.value == Some(v@),
        None => a.value is None,
    })
    &&& discon@[0]@[0].not_null
}

/// Whether the disjunctions ask for exactly the attributes of `con`, in order.
pub open spec fn spec_asks_for_all(
    discons: Seq<Vec<Vec<AttributeRequest>>>,
    con: Seq<AttributeView>,
) -> bool {
    &&& discons.len() == con.len()
    &&& forall|i: int| 0 <= i < con.len() ==> spec_asks_for(#[trigger] discons[i], con[i])
}

/// Builds the disjunction that asks for one attribute.
fn discon_for(attr: &Attribute) -> (discon: Vec<Vec<AttributeRequest>>)
    ensures
        spec_asks_for(discon, attr@),
{
    let request = AttributeRequest {
        attr_type: attr.atype.clone(),
        value: match &attr.value {
            Some(v) => Some(v.clone()),
            None => None,
        },
        not_null: true,
    };
    let mut inner: Vec<AttributeRequest> = Vec::new();
    inner.push(request);
    let mut discon: Vec<Vec<AttributeRequest>> = Vec::new();
    discon.push(inner);
    discon
}

/// Turns a key request into the request for a disclosure session. Every
/// attribute must be disclosed with a value that is not empty. The validity is
/// the default where the request names none and the requested one where it is
/// within the limit; beyond the limit the request fails with `ValidityError`.
pub fn start(kr: &KeyRequest, is_signing: bool) -> (res: Result<SessionRequest, Error>)
    ensures
        match res {
            Ok(session) => {
                &&& spec_validity(kr.validity, is_signing) == Ok::<u64, Error>(session.validity)
                &&& spec_asks_for_all(session.discons@, con_view(kr.con@))
            },
            Err(e) => spec_validity(kr.validity, is_signing) == Err::<u64, Error>(e),
        },
{
    let ghost cv = con_view(kr.con@);
    let mut discons: Vec<Vec<Vec<AttributeRequest>>> = Vec::new();
    let mut i: usize = 0;
    while i < kr.con.len()
        invariant
            i <= kr.con@.len(),
            cv == con_view(kr.con@),
            discons@.len() == i,
            forall|j: int| 0 <= j < i ==> spec_asks_for(#[trigger] discons@[j], cv[j]),
        decreases kr.con@.len() - i,
    {
        discons.push(discon_for(&kr.con[i]));
        i += 1;
    }
    match check_validity(kr.validity, is_signing) {
        Err(e) => Err(e),
        Ok(validity) => Ok(SessionRequest { validity, discons }),
    }
}

} // verus!

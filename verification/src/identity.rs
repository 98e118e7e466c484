//! Attributes, policies and the identities derived from them.

use crate::bytes::{extend_bytes, push_be16, push_be64, spec_be16, spec_be64};
use crate::error::Error;
use crate::kem::{identity_hash, spec_identity_hash};
use vstd::prelude::*;
use vstd::utf8::encode_utf8;

verus! {

/// A typed attribute. A hidden attribute carries no value.
#[derive(Debug, PartialEq, Eq)]
pub struct Attribute {
    /// The attribute's type identifier.
    pub atype: String,
    /// The value, absent when it is hidden.
    pub value: Option<String>,
}

/// What an [`Attribute`] holds, as mathematical text.
pub struct AttributeView {
    pub atype: Seq<char>,
    pub value: Option<Seq<char>>,
}

impl View for Attribute {
    type V = AttributeView;

    open spec fn view(&self) -> AttributeView {
        AttributeView {
            atype: self.atype@,
            value: match self.value {
                Some(v) => Some(v@),
                None => None,
            },
        }
    }
}

/// The views of a sequence of attributes, in order.
pub open spec fn con_view(con: Seq<Attribute>) -> Seq<AttributeView> {
    con.map_values(|a: Attribute| a@)
}

impl Clone for Attribute {
    fn clone(&self) -> (copy: Attribute)
        ensures
            copy@ == self@,
    {
        Attribute {
            atype: self.atype.clone(),
            value: match &self.value {
                Some(v) => Some(v.clone()),
                None => None,
            },
        }
    }
}

impl Attribute {
    /// An attribute of type `atype` with the given value, or hidden if there is none.
    pub fn new(atype: &str, value: Option<&str>) -> (attr: Attribute)
        ensures
            attr@.atype == atype@,
            attr@.value == (match value {
                Some(v) => Some(v@),
                None => None,
            }),
    {
        Attribute {
            atype: atype.to_owned(),
            value: match value {
                Some(v) => Some(v.to_owned()),
                None => None,
            },
        }
    }

    /// The same attribute without its value.
    pub fn to_hidden(&self) -> (hidden: Attribute)
        ensures
            hidden@ == spec_hide_attr(self@),
    {
        Attribute { atype: self.atype.clone(), value: None }
    }
}

/// A timestamp and an ordered conjunction of attributes.
#[derive(Debug, PartialEq, Eq)]
pub struct Policy {
    /// Seconds since the epoch at which the policy was made.
    pub timestamp: u64,
    /// The attributes, all of which a recipient must hold.
    pub con: Vec<Attribute>,
}

/// A policy whose attribute values have all been removed.
#[derive(Debug, PartialEq, Eq)]
pub struct HiddenPolicy {
    /// Seconds since the epoch at which the policy was made.
    pub timestamp: u64,
    /// The attributes, each without a value.
    pub con: Vec<Attribute>,
}

/// What a policy holds, hidden or not.
pub struct PolicyView {
    pub timestamp: u64,
    pub con: Seq<AttributeView>,
}

impl View for Policy {
    type V = PolicyView;

    open spec fn view(&self) -> PolicyView {
        PolicyView { timestamp: self.timestamp, con: con_view(self.con@) }
    }
}

impl View for HiddenPolicy {
    type V = PolicyView;

    open spec fn view(&self) -> PolicyView {
        PolicyView { timestamp: self.timestamp, con: con_view(self.con@) }
    }
}

/// An attribute with its value removed.
pub open spec fn spec_hide_attr(a: AttributeView) -> AttributeView {
    AttributeView { atype: a.atype, value: None }
}

/// A policy with every value removed.
pub open spec fn spec_hide(p: PolicyView) -> PolicyView {
    PolicyView { timestamp: p.timestamp, con: p.con.map_values(|a: AttributeView| spec_hide_attr(a)) }
}

/// Whether no attribute of the policy carries a value.
pub open spec fn spec_is_hidden(p: PolicyView) -> bool {
    forall|i: int| 0 <= i < p.con.len() ==> (#[trigger] p.con[i]).value is None
}

/// The attribute types of a policy, in order.
pub open spec fn spec_types(p: PolicyView) -> Seq<Seq<char>> {
    p.con.map_values(|a: AttributeView| a.atype)
}

/// Hiding a policy keeps its timestamp and its attribute types, in order, and
/// leaves no value behind.
pub proof fn lemma_hide_preserves_shape(p: PolicyView)
    ensures
        spec_hide(p).timestamp == p.timestamp,
        spec_types(spec_hide(p)) == spec_types(p),
        spec_is_hidden(spec_hide(p)),
        spec_hide(spec_hide(p)) == spec_hide(p),
{
    assert(spec_types(spec_hide(p)) =~= spec_types(p));
    assert(spec_hide(spec_hide(p)).con =~= spec_hide(p).con);
}

/// The canonical bytes of one attribute: the type's length in two big-endian bytes,
/// the type, then the value's length and the value, or `0xFFFF` for a hidden value.
pub open spec fn spec_attr_bytes(a: AttributeView) -> Seq<u8> {
    let t = encode_utf8(a.atype);
    spec_be16(t.len() as u16) + t + (match a.value {
        Some(v) => spec_be16(encode_utf8(v).len() as u16) + encode_utf8(v),
        None => seq![0xFFu8, 0xFFu8],
    })
}

/// The canonical bytes of a conjunction: those of its attributes, in order.
pub open spec fn spec_con_bytes(con: Seq<AttributeView>) -> Seq<u8>
    decreases con.len(),
{
    if con.len() == 0 {
        Seq::empty()
    } else {
        spec_con_bytes(con.drop_last()) + spec_attr_bytes(con.last())
    }
}

/// The canonical bytes of a policy: the timestamp in eight big-endian bytes, then
/// the conjunction.
pub open spec fn spec_policy_bytes(p: PolicyView) -> Seq<u8> {
    spec_be64(p.timestamp) + spec_con_bytes(p.con)
}

/// Whether the lengths of an attribute fit the two-byte length fields.
pub open spec fn spec_attr_encodable(a: AttributeView) -> bool {
    &&& encode_utf8(a.atype).len() <= 0xFFFF
    &&& a.value matches Some(v) ==> encode_utf8(v).len() < 0xFFFF
}

/// Whether every attribute of the policy is encodable.
pub open spec fn spec_policy_encodable(p: PolicyView) -> bool {
    forall|i: int| 0 <= i < p.con.len() ==> spec_attr_encodable(#[trigger] p.con[i])
}

/// The identity of a policy: the scheme's hash of its canonical bytes.
pub open spec fn spec_policy_identity(p: PolicyView) -> Seq<u8> {
    spec_identity_hash(spec_policy_bytes(p))
}

/// Policies with the same canonical bytes derive the same identity.
pub proof fn lemma_identity_deterministic(p: PolicyView, q: PolicyView)
    requires
        spec_policy_bytes(p) == spec_policy_bytes(q),
    ensures
        spec_policy_identity(p) == spec_policy_identity(q),
{
}

/// The canonical bytes of a conjunction begin with those of its first attribute.
proof fn lemma_con_bytes_front(con: Seq<AttributeView>)
    requires
        con.len() > 0,
    ensures
        spec_con_bytes(con) == spec_attr_bytes(con[0]) + spec_con_bytes(con.drop_first()),
    decreases con.len(),
{
    if con.len() == 1 {
        assert(con.drop_last() =~= Seq::<AttributeView>::empty());
        assert(con.drop_first() =~= Seq::<AttributeView>::empty());
        assert(spec_con_bytes(con) =~= spec_attr_bytes(con[0]) + spec_con_bytes(
            con.drop_first(),
        ));
    } else {
        lemma_con_bytes_front(con.drop_last());
        assert(con.drop_last().drop_first() =~= con.drop_first().drop_last());
        assert(con.drop_first().last() == con.last());
        assert(con.drop_last()[0] == con[0]);
        assert(spec_con_bytes(con) =~= spec_attr_bytes(con[0]) + (spec_con_bytes(
            con.drop_first().drop_last(),
        ) + spec_attr_bytes(con.last())));
    }
}

/// Two encodable attributes whose canonical bytes open the same byte string are
/// the same attribute.
proof fn lemma_attr_bytes_prefix(a: AttributeView, b: AttributeView, x: Seq<u8>, y: Seq<u8>)
    requires
        spec_attr_encodable(a),
        spec_attr_encodable(b),
        spec_attr_bytes(a) + x == spec_attr_bytes(b) + y,
    ensures
        a == b,
        x == y,
{
    let ta = encode_utf8(a.atype);
    let tb = encode_utf8(b.atype);
    let ea = spec_attr_bytes(a);
    let eb = spec_attr_bytes(b);
    let whole = ea + x;
    assert(whole == eb + y);
    crate::bytes::lemma_be16_roundtrip(ta.len() as u16);
    crate::bytes::lemma_be16_roundtrip(tb.len() as u16);
    assert(whole.subrange(0, 2) =~= spec_be16(ta.len() as u16));
    assert(whole.subrange(0, 2) =~= spec_be16(tb.len() as u16));
    assert(ta.len() == tb.len());
    let n = ta.len() as int;
    assert(whole.subrange(2, 2 + n) =~= ta);
    assert(whole.subrange(2, 2 + n) =~= tb);
    vstd::utf8::encode_utf8_decode_utf8(a.atype);
    vstd::utf8::encode_utf8_decode_utf8(b.atype);
    assert(a.atype == b.atype);
    let va = match a.value {
        Some(v) => spec_be16(encode_utf8(v).len() as u16) + encode_utf8(v),
        None => seq![0xFFu8, 0xFFu8],
    };
    let vb = match b.value {
        Some(v) => spec_be16(encode_utf8(v).len() as u16) + encode_utf8(v),
        None => seq![0xFFu8, 0xFFu8],
    };
    assert(ea =~= spec_be16(ta.len() as u16) + ta + va);
    assert(eb =~= spec_be16(tb.len() as u16) + tb + vb);
    assert(whole.subrange(2 + n, 4 + n) =~= va.subrange(0, 2));
    assert(whole.subrange(2 + n, 4 + n) =~= vb.subrange(0, 2));
    match (a.value, b.value) {
        (None, None) => {},
        (Some(v), None) => {
            let lv = encode_utf8(v).len() as u16;
            crate::bytes::lemma_be16_roundtrip(lv);
            crate::bytes::lemma_be16_roundtrip(0xFFFFu16);
            assert(va.subrange(0, 2) =~= spec_be16(lv));
            assert(vb.subrange(0, 2) =~= spec_be16(0xFFFFu16));
        },
        (None, Some(v)) => {
            let lv = encode_utf8(v).len() as u16;
            crate::bytes::lemma_be16_roundtrip(lv);
            crate::bytes::lemma_be16_roundtrip(0xFFFFu16);
            assert(vb.subrange(0, 2) =~= spec_be16(lv));
            assert(va.subrange(0, 2) =~= spec_be16(0xFFFFu16));
        },
        (Some(v), Some(w)) => {
            let lv = encode_utf8(v).len() as u16;
            let lw = encode_utf8(w).len() as u16;
            crate::bytes::lemma_be16_roundtrip(lv);
            crate::bytes::lemma_be16_roundtrip(lw);
            assert(va.subrange(0, 2) =~= spec_be16(lv));
            assert(vb.subrange(0, 2) =~= spec_be16(lw));
            assert(lv == lw);
            let m = lv as int;
            assert(whole.subrange(4 + n, 4 + n + m) =~= encode_utf8(v));
            assert(whole.subrange(4 + n, 4 + n + m) =~= encode_utf8(w));
            vstd::utf8::encode_utf8_decode_utf8(v);
            vstd::utf8::encode_utf8_decode_utf8(w);
            assert(v == w);
        },
    }
    assert(ea == eb);
    assert(x =~= whole.subrange(ea.len() as int, whole.len() as int));
    assert(y =~= whole.subrange(eb.len() as int, whole.len() as int));
}

/// Two conjunctions of encodable attributes with the same canonical bytes are
/// the same conjunction.
proof fn lemma_con_bytes_injective(p: Seq<AttributeView>, q: Seq<AttributeView>)
    requires
        forall|i: int| 0 <= i < p.len() ==> spec_attr_encodable(#[trigger] p[i]),
        forall|i: int| 0 <= i < q.len() ==> spec_attr_encodable(#[trigger] q[i]),
        spec_con_bytes(p) == spec_con_bytes(q),
    ensures
        p == q,
    decreases p.len(),
{
    if p.len() == 0 {
        assert(spec_con_bytes(p).len() == 0);
        if q.len() > 0 {
            lemma_con_bytes_front(q);
            assert(spec_attr_bytes(q[0]).len() >= 4);
            assert(spec_con_bytes(q).len() >= 4);
        }
        assert(p =~= q);
    } else if q.len() == 0 {
        assert(spec_con_bytes(q).len() == 0);
        lemma_con_bytes_front(p);
        assert(spec_attr_bytes(p[0]).len() >= 4);
        assert(spec_con_bytes(p).len() >= 4);
    } else {
        lemma_con_bytes_front(p);
        lemma_con_bytes_front(q);
        assert(spec_attr_encodable(p[0]));
        assert(spec_attr_encodable(q[0]));
        lemma_attr_bytes_prefix(
            p[0],
            q[0],
            spec_con_bytes(p.drop_first()),
            spec_con_bytes(q.drop_first()),
        );
        assert forall|i: int| 0 <= i < p.drop_first().len() implies spec_attr_encodable(
            #[trigger] p.drop_first()[i],
        ) by {
            assert(p.drop_first()[i] == p[i + 1]);
        }
        assert forall|i: int| 0 <= i < q.drop_first().len() implies spec_attr_encodable(
            #[trigger] q.drop_first()[i],
        ) by {
            assert(q.drop_first()[i] == q[i + 1]);
        }
        lemma_con_bytes_injective(p.drop_first(), q.drop_first());
        assert(p =~= seq![p[0]] + p.drop_first());
        assert(q =~= seq![q[0]] + q.drop_first());
    }
}

/// The canonical bytes determine the policy: two encodable policies with the
/// same canonical bytes are the same policy, timestamp, attributes and order.
pub proof fn lemma_policy_bytes_injective(p: PolicyView, q: PolicyView)
    requires
        spec_policy_encodable(p),
        spec_policy_encodable(q),
        spec_policy_bytes(p) == spec_policy_bytes(q),
    ensures
        p == q,
{
    let bp = spec_policy_bytes(p);
    crate::bytes::lemma_be64_roundtrip(p.timestamp);
    crate::bytes::lemma_be64_roundtrip(q.timestamp);
    assert(bp.subrange(0, 8) =~= spec_be64(p.timestamp));
    assert(bp.subrange(0, 8) =~= spec_be64(q.timestamp));
    assert(p.timestamp == q.timestamp);
    assert(bp.subrange(8, bp.len() as int) =~= spec_con_bytes(p.con));
    assert(bp.subrange(8, bp.len() as int) =~= spec_con_bytes(q.con));
    lemma_con_bytes_injective(p.con, q.con);
}

/// Appends the canonical bytes of `attr`, or reports that a length does not fit.
fn push_attr_bytes(out: &mut Vec<u8>, attr: &Attribute) -> (fits: bool)
    ensures
        fits == spec_attr_encodable(attr@),
        fits ==> final(out)@ == old(out)@ + spec_attr_bytes(attr@),
{
    let ghost before = out@;
    let t = attr.atype.as_str().as_bytes();
    if t.len() > 0xFFFF {
        return false;
    }
    match &attr.value {
        Some(v) => {
            let vb = v.as_str().as_bytes();
            if vb.len() >= 0xFFFF {
                return false;
            }
            push_be16(out, t.len() as u16);
            extend_bytes(out, t);
            push_be16(out, vb.len() as u16);
            extend_bytes(out, vb);
            assert(out@ =~= before + spec_attr_bytes(attr@));
        },
        None => {
            push_be16(out, t.len() as u16);
            extend_bytes(out, t);
            out.push(0xFF);
            out.push(0xFF);
            assert(out@ =~= before + spec_attr_bytes(attr@));
        },
    }
    true
}

/// The canonical bytes of a timestamp and a conjunction.
fn canonical_bytes_of(timestamp: u64, con: &Vec<Attribute>) -> (res: Result<Vec<u8>, Error>)
    ensures
        ({
            let p = PolicyView { timestamp, con: con_view(con@) };
            match res {
                Ok(bytes) => spec_policy_encodable(p) && bytes@ == spec_policy_bytes(p),
                Err(e) => e == Error::ConstraintViolation && !spec_policy_encodable(p),
            }
        }),
{
    let ghost cv = con_view(con@);
    let mut out: Vec<u8> = Vec::new();
    push_be64(&mut out, timestamp);
    let mut i: usize = 0;
    while i < con.len()
        invariant
            i <= con@.len(),
            cv == con_view(con@),
            out@ == spec_be64(timestamp) + spec_con_bytes(cv.subrange(0, i as int)),
            forall|j: int| 0 <= j < i ==> spec_attr_encodable(#[trigger] cv[j]),
        decreases con@.len() - i,
    {
        let fits = push_attr_bytes(&mut out, &con[i]);
        if !fits {
            proof {
                let p = PolicyView { timestamp, con: cv };
                assert(!spec_attr_encodable(p.con[i as int]));
            }
            return Err(Error::ConstraintViolation);
        }
        proof {
            let next = cv.subrange(0, i + 1);
            assert(next.drop_last() =~= cv.subrange(0, i as int));
            assert(next.last() == cv[i as int]);
        }
        i += 1;
    }
    assert(cv.subrange(0, cv.len() as int) =~= cv);
    Ok(out)
}

impl Policy {
    /// The policy without its attribute values.
    pub fn to_hidden(&self) -> (hidden: HiddenPolicy)
        ensures
            hidden@ == spec_hide(self@),
            spec_is_hidden(hidden@),
    {
        let mut con: Vec<Attribute> = Vec::new();
        let mut i: usize = 0;
        while i < self.con.len()
            invariant
                i <= self.con@.len(),
                con@.len() == i,
                forall|j: int| 0 <= j < i ==> (#[trigger] con@[j])@ == spec_hide_attr(self.con@[j]@),
            decreases self.con@.len() - i,
        {
            con.push(self.con[i].to_hidden());
            i += 1;
        }
        let hidden = HiddenPolicy { timestamp: self.timestamp, con };
        assert(hidden@.con =~= spec_hide(self@).con);
        hidden
    }

    /// The canonical byte encoding from which the identity is derived. It fails
    /// with `ConstraintViolation` exactly when a type is longer than 65535 bytes or
    /// a value longer than 65534.
    pub fn canonical_bytes(&self) -> (res: Result<Vec<u8>, Error>)
        ensures
            match res {
                Ok(bytes) => spec_policy_encodable(self@) && bytes@ == spec_policy_bytes(self@),
                Err(e) => e == Error::ConstraintViolation && !spec_policy_encodable(self@),
            },
    {
        canonical_bytes_of(self.timestamp, &self.con)
    }

    /// The identity under which a secret is encapsulated for this policy.
    pub fn derive(&self) -> (res: Result<[u8; 64], Error>)
        ensures
            match res {
                Ok(id) => spec_policy_encodable(self@) && id@ == spec_policy_identity(self@),
                Err(e) => e == Error::ConstraintViolation && !spec_policy_encodable(self@),
            },
    {
        match self.canonical_bytes() {
            Ok(bytes) => Ok(identity_hash(bytes.as_slice())),
            Err(e) => Err(e),
        }
    }
}

impl Clone for Policy {
    fn clone(&self) -> (copy: Policy)
        ensures
            copy@ == self@,
    {
        let copy = Policy { timestamp: self.timestamp, con: clone_con(&self.con) };
        copy
    }
}

impl Clone for HiddenPolicy {
    fn clone(&self) -> (copy: HiddenPolicy)
        ensures
            copy@ == self@,
    {
        let copy = HiddenPolicy { timestamp: self.timestamp, con: clone_con(&self.con) };
        copy
    }
}

/// A copy of a conjunction.
pub fn clone_con(con: &Vec<Attribute>) -> (copy: Vec<Attribute>)
    ensures
        con_view(copy@) == con_view(con@),
{
    let mut copy: Vec<Attribute> = Vec::new();
    let mut i: usize = 0;
    while i < con.len()
        invariant
            i <= con@.len(),
            copy@.len() == i,
            forall|j: int| 0 <= j < i ==> (#[trigger] copy@[j])@ == con@[j]@,
        decreases con@.len() - i,
    {
        copy.push(con[i].clone());
        i += 1;
    }
    assert(con_view(copy@) =~= con_view(con@));
    copy
}

impl HiddenPolicy {
    /// The canonical byte encoding of the hidden policy.
    pub fn canonical_bytes(&self) -> (res: Result<Vec<u8>, Error>)
        ensures
            match res {
                Ok(bytes) => spec_policy_encodable(self@) && bytes@ == spec_policy_bytes(self@),
                Err(e) => e == Error::ConstraintViolation && !spec_policy_encodable(self@),
            },
    {
        canonical_bytes_of(self.timestamp, &self.con)
    }
}

} // verus!

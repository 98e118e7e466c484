//! How long the binary encoding of a header can get.
//!
//! The ciphertexts and the initialization vector of a header are random, and so
//! is the length of its encoding. The bound here depends on the policies alone.

use crate::identity::{spec_hide, AttributeView, PolicyView};
use crate::metadata::ser::{
    spec_algo,
    spec_attr,
    spec_attr_fits,
    spec_attr_parts,
    spec_header_head,
    spec_header_tail,
    spec_mode,
    spec_msgpack,
    spec_msgpack_fits,
    spec_policy,
    spec_policy_fits,
    spec_recipient,
    spec_recipient_fits,
    spec_recipient_parts,
};
use crate::metadata::{spec_default_mode, spec_header_matches, Algorithm, HeaderView, RecipientView};
use crate::msgpack::{spec_byte_array, spec_byte_parts, spec_text, spec_uint};
use crate::seqs::spec_concat;
use vstd::prelude::*;
use vstd::utf8::encode_utf8;

verus! {

/// The sum of a sequence of numbers.
pub open spec fn spec_sum(s: Seq<nat>) -> nat
    decreases s.len(),
{
    if s.len() == 0 {
        0
    } else {
        spec_sum(s.drop_last()) + s.last()
    }
}

/// No member of a sequence exceeds the sum, and a sequence of positive numbers
/// has no more members than its sum.
proof fn lemma_sum_bounds(s: Seq<nat>, i: int)
    requires
        0 <= i < s.len(),
    ensures
        s[i] <= spec_sum(s),
        (forall|j: int| 0 <= j < s.len() ==> #[trigger] s[j] >= 1) ==> s.len() <= spec_sum(s),
    decreases s.len(),
{
    if i < s.len() - 1 {
        lemma_sum_bounds(s.drop_last(), i);
    } else if s.len() > 1 {
        lemma_sum_bounds(s.drop_last(), 0);
    }
}

/// Parts that are no longer than their bounds join to no more than the bounds'
/// sum.
proof fn lemma_concat_bounded(parts: Seq<Seq<u8>>, bounds: Seq<nat>)
    requires
        parts.len() == bounds.len(),
        forall|i: int| 0 <= i < parts.len() ==> (#[trigger] parts[i]).len() <= bounds[i],
    ensures
        spec_concat(parts).len() <= spec_sum(bounds),
    decreases parts.len(),
{
    if parts.len() > 0 {
        lemma_concat_bounded(parts.drop_last(), bounds.drop_last());
        assert(parts.last().len() <= bounds.last());
    }
}

/// Parts of at most two bytes join to at most two bytes each.
proof fn lemma_concat_pairs(parts: Seq<Seq<u8>>)
    requires
        forall|i: int| 0 <= i < parts.len() ==> (#[trigger] parts[i]).len() <= 2,
    ensures
        spec_concat(parts).len() <= 2 * parts.len(),
    decreases parts.len(),
{
    if parts.len() > 0 {
        lemma_concat_pairs(parts.drop_last());
        assert(parts.last().len() <= 2);
    }
}

/// An array of bytes takes at most five bytes and two for each of its own.
proof fn lemma_byte_array_len(bytes: Seq<u8>)
    requires
        bytes.len() < 0x1_0000_0000,
    ensures
        spec_byte_array(bytes).len() <= 5 + 2 * bytes.len(),
{
    let parts = spec_byte_parts(bytes);
    assert forall|i: int| 0 <= i < parts.len() implies (#[trigger] parts[i]).len() <= 2 by {
        assert(parts[i] == spec_uint(bytes[i] as u64));
    }
    lemma_concat_pairs(parts);
}

/// A bound on the encoding of a hidden attribute of the given type.
pub open spec fn spec_attr_bound(a: AttributeView) -> nat {
    24 + encode_utf8(a.atype).len()
}

/// A bound on the encoding of a policy, once hidden.
pub open spec fn spec_policy_bound(p: PolicyView) -> nat {
    40 + spec_sum(p.con.map_values(|a: AttributeView| spec_attr_bound(a)))
}

/// A bound on the encoding of one recipient.
pub open spec fn spec_recipient_bound(entry: (Seq<char>, PolicyView)) -> nat {
    600 + encode_utf8(entry.0).len() + spec_policy_bound(entry.1)
}

/// A bound on the encoding of a header for the policies: two hundred bytes, six
/// hundred more for each recipient, twenty-four for each attribute, and the
/// bytes of every identifier and attribute type.
pub open spec fn spec_header_bound(policies: Seq<(Seq<char>, PolicyView)>) -> nat {
    200 + spec_sum(policies.map_values(|e: (Seq<char>, PolicyView)| spec_recipient_bound(e)))
}

proof fn lemma_policy_len(p: PolicyView, limit: nat)
    requires
        spec_policy_bound(p) <= limit,
        limit < 0x1_0000_0000,
    ensures
        spec_policy_fits(spec_hide(p)),
        spec_policy(spec_hide(p)).len() <= spec_policy_bound(p),
{
    let hidden = spec_hide(p);
    let bounds = p.con.map_values(|a: AttributeView| spec_attr_bound(a));
    let parts = spec_attr_parts(hidden.con);
    assert forall|i: int| 0 <= i < hidden.con.len() implies spec_attr_fits(
        #[trigger] hidden.con[i],
    ) && parts[i].len() <= bounds[i] by {
        lemma_sum_bounds(bounds, i);
        assert(bounds[i] == spec_attr_bound(p.con[i]));
        assert(hidden.con[i].atype == p.con[i].atype);
        assert(hidden.con[i].value is None);
        assert(parts[i] == spec_attr(hidden.con[i]));
    }
    if p.con.len() > 0 {
        lemma_sum_bounds(bounds, 0);
    }
    lemma_concat_bounded(parts, bounds);
}

/// Whatever its random parts are, a header that was built for the policies with
/// the default cipher and mode can be written, in no more bytes than the bound,
/// provided the bound is below 2^32.
pub proof fn lemma_header_bound(h: HeaderView, policies: Seq<(Seq<char>, PolicyView)>)
    requires
        spec_header_matches(h, policies),
        h.algo is Aes128Gcm,
        h.mode == spec_default_mode(),
        spec_header_bound(policies) < 0x1_0000_0000,
    ensures
        spec_msgpack_fits(h),
        spec_msgpack(h).len() <= spec_header_bound(policies),
{
    let bounds = policies.map_values(|e: (Seq<char>, PolicyView)| spec_recipient_bound(e));
    let parts = spec_recipient_parts(h.recipients);
    let limit = spec_header_bound(policies);
    assert forall|i: int| 0 <= i < h.recipients.len() implies spec_recipient_fits(
        #[trigger] h.recipients[i],
    ) && parts[i].len() <= bounds[i] by {
        lemma_sum_bounds(bounds, i);
        assert(bounds[i] == spec_recipient_bound(policies[i]));
        let r = h.recipients[i];
        assert(r.id == policies[i].0);
        assert(r.policy == spec_hide(policies[i].1));
        lemma_policy_len(policies[i].1, limit);
        lemma_byte_array_len(r.ct);
        assert(parts[i] == spec_recipient(r));
    }
    assert(bounds.len() <= spec_sum(bounds)) by {
        if bounds.len() > 0 {
            lemma_sum_bounds(bounds, 0);
        }
    }
    lemma_concat_bounded(parts, bounds);
    let iv = h.algo->Aes128Gcm_iv;
    lemma_byte_array_len(iv@);
    assert(spec_algo(h.algo).len() <= 60);
    assert(spec_mode(h.mode).len() <= 60);
    assert(spec_header_head(h.recipients.len(), true).len() <= 9);
    assert(spec_header_tail(h.algo, h.mode, true).len() <= 130);
    assert(spec_msgpack(h) =~= spec_header_head(h.recipients.len(), true) + spec_concat(parts)
        + spec_header_tail(h.algo, h.mode, true));
}

} // verus!

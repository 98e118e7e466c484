//! The binary encoding of a header.
//!
//! A header is written as a MessagePack map with named fields; an enum is a map
//! of one entry, keyed by the variant's name. Fixed-size byte arrays are written
//! as arrays of integers. Every value takes its shortest form, and the fields
//! stand in one order, so a header has exactly one encoding.
//!
//! The reader accepts that encoding, and the same without the `mode` field,
//! which it takes for a header in the default mode. It accepts nothing else: no
//! longer form of an integer or a length, no other order of the fields, no field
//! that it does not know, no header written as an array.

use crate::bytes::{bytes_eq, extend_bytes};
use crate::error::Error;
use crate::identity::{
    con_view,
    spec_is_hidden,
    Attribute,
    AttributeView,
    HiddenPolicy,
    PolicyView,
};
use crate::metadata::{
    spec_default_mode,
    ids_unique,
    recipient_view,
    recipients_view,
    spec_header_wf,
    spec_ids_unique,
    spec_recipient_ids,
    Algorithm,
    Header,
    HeaderView,
    Mode,
    RecipientHeader,
    RecipientView,
};
use crate::msgpack::{
    expect_bytes,
    read_array_header,
    read_byte_array,
    read_map_header,
    read_nil,
    read_text,
    read_uint,
    spec_array_header,
    spec_byte_array,
    spec_map_header,
    spec_nil,
    spec_text,
    spec_uint,
    write_array_header,
    write_byte_array,
    write_map_header,
    write_nil,
    write_text,
    write_uint,
};
use crate::seqs::{
    lemma_concat_part_at,
    lemma_concat_take,
    lemma_prefix_split,
    prefix_at,
    spec_concat,
};
use vstd::prelude::*;
use vstd::utf8::encode_utf8;

verus! {

/// The string `rs`, the key of the recipients.
pub const KEY_RS: [u8; 3] = [0xa2, 0x72, 0x73];

/// The string `p`, the key of the policy of a recipient.
pub const KEY_P: [u8; 2] = [0xa1, 0x70];

/// The string `ct`, the key of the ciphertext of a recipient.
pub const KEY_CT: [u8; 3] = [0xa2, 0x63, 0x74];

/// The string `algo`, the key of the cipher.
pub const KEY_ALGO: [u8; 5] = [0xa4, 0x61, 0x6c, 0x67, 0x6f];

/// The string `mode`, the key of the mode.
pub const KEY_MODE: [u8; 5] = [0xa4, 0x6d, 0x6f, 0x64, 0x65];

/// The string `timestamp`, the key of the timestamp of a policy.
pub const KEY_TIMESTAMP: [u8; 10] = [0xa9, 0x74, 0x69, 0x6d, 0x65, 0x73, 0x74, 0x61, 0x6d, 0x70];

/// The string `con`, the key of the conjunction of a policy.
pub const KEY_CON: [u8; 4] = [0xa3, 0x63, 0x6f, 0x6e];

/// The string `type`, the key of the type of an attribute.
pub const KEY_TYPE: [u8; 5] = [0xa4, 0x74, 0x79, 0x70, 0x65];

/// The string `value`, the key of the value of an attribute.
pub const KEY_VALUE: [u8; 6] = [0xa5, 0x76, 0x61, 0x6c, 0x75, 0x65];

/// The string `iv`, the key of the initialization vector.
pub const KEY_IV: [u8; 3] = [0xa2, 0x69, 0x76];

/// The string `segment_size`, the key of the segment size.
pub const KEY_SEGMENT_SIZE: [u8; 13] = [
    0xac, 0x73, 0x65, 0x67, 0x6d, 0x65, 0x6e, 0x74, 0x5f, 0x73, 0x69, 0x7a, 0x65,
];

/// The string `size_hint`, the key of the size hint.
pub const KEY_SIZE_HINT: [u8; 10] = [0xa9, 0x73, 0x69, 0x7a, 0x65, 0x5f, 0x68, 0x69, 0x6e, 0x74];

/// The string `size`, the key of the size.
pub const KEY_SIZE: [u8; 5] = [0xa4, 0x73, 0x69, 0x7a, 0x65];

/// The string `Aes128Gcm`, the tag of that variant.
pub const NAME_AES128GCM: [u8; 10] = [0xa9, 0x41, 0x65, 0x73, 0x31, 0x32, 0x38, 0x47, 0x63, 0x6d];

/// The string `XSalsa20Poly1305`, the tag of that variant.
pub const NAME_XSALSA20POLY1305: [u8; 17] = [
    0xb0, 0x58, 0x53, 0x61, 0x6c, 0x73, 0x61, 0x32, 0x30, 0x50, 0x6f, 0x6c, 0x79, 0x31, 0x33,
    0x30, 0x35,
];

/// The string `Aes128Ocb`, the tag of that variant.
pub const NAME_AES128OCB: [u8; 10] = [0xa9, 0x41, 0x65, 0x73, 0x31, 0x32, 0x38, 0x4f, 0x63, 0x62];

/// The string `Aegis128`, the tag of that variant.
pub const NAME_AEGIS128: [u8; 9] = [0xa8, 0x41, 0x65, 0x67, 0x69, 0x73, 0x31, 0x32, 0x38];

/// The string `Streaming`, the tag of that variant.
pub const NAME_STREAMING: [u8; 10] = [0xa9, 0x53, 0x74, 0x72, 0x65, 0x61, 0x6d, 0x69, 0x6e, 0x67];

/// The string `InMemory`, the tag of that variant.
pub const NAME_INMEMORY: [u8; 9] = [0xa8, 0x49, 0x6e, 0x4d, 0x65, 0x6d, 0x6f, 0x72, 0x79];

/// The encoding of an optional text.
pub open spec fn spec_opt_text(t: Option<Seq<char>>) -> Seq<u8> {
    match t {
        Some(v) => spec_text(v),
        None => spec_nil(),
    }
}

/// The encoding of an attribute.
pub open spec fn spec_attr(a: AttributeView) -> Seq<u8> {
    spec_map_header(2) + KEY_TYPE@ + spec_text(a.atype) + KEY_VALUE@ + spec_opt_text(a.value)
}

/// Whether the texts of an attribute are short enough to be written.
pub open spec fn spec_attr_fits(a: AttributeView) -> bool {
    &&& encode_utf8(a.atype).len() < 0x1_0000_0000
    &&& a.value matches Some(v) ==> encode_utf8(v).len() < 0x1_0000_0000
}

/// The encodings of the attributes of a conjunction, in order.
pub open spec fn spec_attr_parts(con: Seq<AttributeView>) -> Seq<Seq<u8>> {
    con.map_values(|a: AttributeView| spec_attr(a))
}

/// The encoding of a policy.
pub open spec fn spec_policy(p: PolicyView) -> Seq<u8> {
    spec_map_header(2) + KEY_TIMESTAMP@ + spec_uint(p.timestamp) + KEY_CON@ + spec_array_header(
        p.con.len(),
    ) + spec_concat(spec_attr_parts(p.con))
}

/// Whether a policy can be written.
pub open spec fn spec_policy_fits(p: PolicyView) -> bool {
    &&& p.con.len() < 0x1_0000_0000
    &&& forall|i: int| 0 <= i < p.con.len() ==> spec_attr_fits(#[trigger] p.con[i])
}

/// The encoding of one recipient: the identifier, then the recipient's data.
pub open spec fn spec_recipient(r: RecipientView) -> Seq<u8> {
    spec_text(r.id) + spec_map_header(2) + KEY_P@ + spec_policy(r.policy) + KEY_CT@
        + spec_byte_array(r.ct)
}

/// Whether a recipient can be written.
pub open spec fn spec_recipient_fits(r: RecipientView) -> bool {
    &&& encode_utf8(r.id).len() < 0x1_0000_0000
    &&& spec_policy_fits(r.policy)
    &&& r.ct.len() == 284
}

/// The encodings of the recipients, in order.
pub open spec fn spec_recipient_parts(rs: Seq<RecipientView>) -> Seq<Seq<u8>> {
    rs.map_values(|r: RecipientView| spec_recipient(r))
}

/// The encoding of a cipher.
pub open spec fn spec_algo(a: Algorithm) -> Seq<u8> {
    spec_map_header(1) + (match a {
        Algorithm::Aes128Gcm { iv } => NAME_AES128GCM@ + spec_map_header(1) + KEY_IV@
            + spec_byte_array(iv@),
        Algorithm::XSalsa20Poly1305 { iv } => NAME_XSALSA20POLY1305@ + spec_map_header(1) + KEY_IV@
            + spec_byte_array(iv@),
        Algorithm::Aes128Ocb { iv } => NAME_AES128OCB@ + spec_map_header(1) + KEY_IV@
            + spec_byte_array(iv@),
        Algorithm::Aegis128 { iv } => NAME_AEGIS128@ + spec_map_header(1) + KEY_IV@
            + spec_byte_array(iv@),
    })
}

/// The encoding of an optional integer.
pub open spec fn spec_opt_uint(n: Option<u64>) -> Seq<u8> {
    match n {
        Some(v) => spec_uint(v),
        None => spec_nil(),
    }
}

/// The encoding of a mode.
pub open spec fn spec_mode(m: Mode) -> Seq<u8> {
    spec_map_header(1) + (match m {
        Mode::Streaming { segment_size, size_hint } => NAME_STREAMING@ + spec_map_header(2)
            + KEY_SEGMENT_SIZE@ + spec_uint(segment_size as u64) + KEY_SIZE_HINT@
            + spec_array_header(2) + spec_uint(size_hint.0) + spec_opt_uint(size_hint.1),
        Mode::InMemory { size } => NAME_INMEMORY@ + spec_map_header(1) + KEY_SIZE@ + spec_uint(
            size,
        ),
    })
}

/// The encoding of a header.
pub open spec fn spec_msgpack(h: HeaderView) -> Seq<u8> {
    spec_map_header(3) + KEY_RS@ + spec_map_header(h.recipients.len()) + spec_concat(
        spec_recipient_parts(h.recipients),
    ) + KEY_ALGO@ + spec_algo(h.algo) + KEY_MODE@ + spec_mode(h.mode)
}

/// Whether a header can be written: no text is longer, and no list has more
/// entries, than thirty-two bits can count.
pub open spec fn spec_msgpack_fits(h: HeaderView) -> bool {
    &&& h.recipients.len() < 0x1_0000_0000
    &&& forall|i: int| 0 <= i < h.recipients.len() ==> spec_recipient_fits(#[trigger] h.recipients[i])
}

/// The encoding of a header that leaves its mode out: a map of the recipients
/// and the cipher alone. No writer of this library produces it; a reader takes
/// it for a header in the default mode.
pub open spec fn spec_msgpack_short(h: HeaderView) -> Seq<u8> {
    spec_map_header(2) + KEY_RS@ + spec_map_header(h.recipients.len()) + spec_concat(
        spec_recipient_parts(h.recipients),
    ) + KEY_ALGO@ + spec_algo(h.algo)
}

/// The encoding of a header in one of its two forms: in full, or without the
/// mode.
pub open spec fn spec_msgpack_form(h: HeaderView, full: bool) -> Seq<u8> {
    if full {
        spec_msgpack(h)
    } else {
        spec_msgpack_short(h)
    }
}

/// Whether `bytes` decode to the well-formed header `h`: they are its encoding,
/// or `h` is in the default mode and they are its encoding without the mode.
///
/// Nothing else decodes. In particular a reader refuses an integer or a length
/// in a longer form than the shortest, the three fields of a header in another
/// order, a field it does not know, and a field that occurs twice.
pub open spec fn spec_decodes(bytes: Seq<u8>, h: HeaderView) -> bool {
    &&& spec_header_wf(h)
    &&& spec_msgpack_fits(h)
    &&& spec_msgpack(h) == bytes || (h.mode == spec_default_mode() && spec_msgpack_short(h)
        == bytes)
}

/// Writes an attribute.
fn write_attr(out: &mut Vec<u8>, a: &Attribute) -> (fits: bool)
    ensures
        fits == spec_attr_fits(a@),
        fits ==> final(out)@ == old(out)@ + spec_attr(a@),
{
    let ghost before = out@;
    write_map_header(out, 2);
    extend_bytes(out, KEY_TYPE.as_slice());
    if !write_text(out, a.atype.as_str()) {
        return false;
    }
    extend_bytes(out, KEY_VALUE.as_slice());
    match &a.value {
        Some(v) => {
            if !write_text(out, v.as_str()) {
                return false;
            }
        },
        None => {
            write_nil(out);
        },
    }
    assert(out@ =~= before + spec_attr(a@));
    true
}

/// Writes a policy.
fn write_policy(out: &mut Vec<u8>, p: &HiddenPolicy) -> (fits: bool)
    ensures
        fits == spec_policy_fits(p@),
        fits ==> final(out)@ == old(out)@ + spec_policy(p@),
{
    let ghost before = out@;
    let ghost cv = con_view(p.con@);
    let ghost parts = spec_attr_parts(cv);
    write_map_header(out, 2);
    extend_bytes(out, KEY_TIMESTAMP.as_slice());
    write_uint(out, p.timestamp);
    extend_bytes(out, KEY_CON.as_slice());
    let n = p.con.len();
    if !write_array_header(out, n) {
        return false;
    }
    let ghost start = out@;
    assert(start =~= before + spec_map_header(2) + KEY_TIMESTAMP@ + spec_uint(p.timestamp)
        + KEY_CON@ + spec_array_header(n as nat));
    assert(parts.take(0) =~= Seq::<Seq<u8>>::empty());
    let mut i: usize = 0;
    while i < n
        invariant
            i <= n,
            n == p.con@.len(),
            cv == con_view(p.con@),
            parts == spec_attr_parts(cv),
            out@ == start + spec_concat(parts.take(i as int)),
            forall|j: int| 0 <= j < i ==> spec_attr_fits(#[trigger] cv[j]),
        decreases n - i,
    {
        proof {
            lemma_concat_take(parts, i as int);
        }
        if !write_attr(out, &p.con[i]) {
            assert(!spec_attr_fits(p@.con[i as int]));
            return false;
        }
        i += 1;
    }
    assert(parts.take(n as int) =~= parts);
    assert(out@ =~= before + spec_policy(p@));
    true
}

/// Writes one recipient.
fn write_recipient(out: &mut Vec<u8>, id: &String, r: &RecipientHeader) -> (fits: bool)
    ensures
        fits == spec_recipient_fits(recipient_view((*id, *r))),
        fits ==> final(out)@ == old(out)@ + spec_recipient(recipient_view((*id, *r))),
{
    let ghost before = out@;
    if !write_text(out, id.as_str()) {
        return false;
    }
    write_map_header(out, 2);
    extend_bytes(out, KEY_P.as_slice());
    let ghost mid = out@;
    if !write_policy(out, &r.policy) {
        return false;
    }
    extend_bytes(out, KEY_CT.as_slice());
    write_byte_array(out, r.ct.as_slice());
    assert(out@ =~= before + spec_recipient(recipient_view((*id, *r))));
    true
}

/// Writes a cipher.
fn write_algo(out: &mut Vec<u8>, a: &Algorithm)
    ensures
        final(out)@ == old(out)@ + spec_algo(*a),
{
    let ghost before = out@;
    write_map_header(out, 1);
    match a {
        Algorithm::Aes128Gcm { iv } => {
            extend_bytes(out, NAME_AES128GCM.as_slice());
            write_map_header(out, 1);
            extend_bytes(out, KEY_IV.as_slice());
            write_byte_array(out, iv.as_slice());
        },
        Algorithm::XSalsa20Poly1305 { iv } => {
            extend_bytes(out, NAME_XSALSA20POLY1305.as_slice());
            write_map_header(out, 1);
            extend_bytes(out, KEY_IV.as_slice());
            write_byte_array(out, iv.as_slice());
        },
        Algorithm::Aes128Ocb { iv } => {
            extend_bytes(out, NAME_AES128OCB.as_slice());
            write_map_header(out, 1);
            extend_bytes(out, KEY_IV.as_slice());
            write_byte_array(out, iv.as_slice());
        },
        Algorithm::Aegis128 { iv } => {
            extend_bytes(out, NAME_AEGIS128.as_slice());
            write_map_header(out, 1);
            extend_bytes(out, KEY_IV.as_slice());
            write_byte_array(out, iv.as_slice());
        },
    }
    assert(out@ =~= before + spec_algo(*a));
}

/// Writes a mode.
fn write_mode(out: &mut Vec<u8>, m: &Mode)
    ensures
        final(out)@ == old(out)@ + spec_mode(*m),
{
    let ghost before = out@;
    write_map_header(out, 1);
    match m {
        Mode::Streaming { segment_size, size_hint } => {
            extend_bytes(out, NAME_STREAMING.as_slice());
            write_map_header(out, 2);
            extend_bytes(out, KEY_SEGMENT_SIZE.as_slice());
            write_uint(out, *segment_size as u64);
            extend_bytes(out, KEY_SIZE_HINT.as_slice());
            write_array_header(out, 2);
            write_uint(out, size_hint.0);
            match size_hint.1 {
                Some(v) => {
                    write_uint(out, v);
                },
                None => {
                    write_nil(out);
                },
            }
        },
        Mode::InMemory { size } => {
            extend_bytes(out, NAME_INMEMORY.as_slice());
            write_map_header(out, 1);
            extend_bytes(out, KEY_SIZE.as_slice());
            write_uint(out, *size);
        },
    }
    assert(out@ =~= before + spec_mode(*m));
}

/// Writes a header.
fn write_header(out: &mut Vec<u8>, h: &Header) -> (fits: bool)
    ensures
        fits == spec_msgpack_fits(h@),
        fits ==> final(out)@ == old(out)@ + spec_msgpack(h@),
{
    let ghost before = out@;
    let ghost rv = recipients_view(h.policies@);
    let ghost parts = spec_recipient_parts(rv);
    write_map_header(out, 3);
    extend_bytes(out, KEY_RS.as_slice());
    let n = h.policies.len();
    if !write_map_header(out, n) {
        return false;
    }
    let ghost start = out@;
    assert(parts.take(0) =~= Seq::<Seq<u8>>::empty());
    let mut i: usize = 0;
    while i < n
        invariant
            i <= n,
            n == h.policies@.len(),
            rv == recipients_view(h.policies@),
            parts == spec_recipient_parts(rv),
            out@ == start + spec_concat(parts.take(i as int)),
            forall|j: int| 0 <= j < i ==> spec_recipient_fits(#[trigger] rv[j]),
        decreases n - i,
    {
        proof {
            lemma_concat_take(parts, i as int);
        }
        if !write_recipient(out, &h.policies[i].0, &h.policies[i].1) {
            assert(!spec_recipient_fits(h@.recipients[i as int]));
            return false;
        }
        i += 1;
    }
    assert(parts.take(n as int) =~= parts);
    extend_bytes(out, KEY_ALGO.as_slice());
    write_algo(out, &h.algo);
    extend_bytes(out, KEY_MODE.as_slice());
    write_mode(out, &h.mode);
    assert(out@ =~= before + spec_msgpack(h@));
    true
}

/// Writes a header without its mode.
fn write_header_short(out: &mut Vec<u8>, h: &Header) -> (fits: bool)
    ensures
        fits == spec_msgpack_fits(h@),
        fits ==> final(out)@ == old(out)@ + spec_msgpack_short(h@),
{
    let ghost before = out@;
    let ghost rv = recipients_view(h.policies@);
    let ghost parts = spec_recipient_parts(rv);
    write_map_header(out, 2);
    extend_bytes(out, KEY_RS.as_slice());
    let n = h.policies.len();
    if !write_map_header(out, n) {
        return false;
    }
    let ghost start = out@;
    assert(parts.take(0) =~= Seq::<Seq<u8>>::empty());
    let mut i: usize = 0;
    while i < n
        invariant
            i <= n,
            n == h.policies@.len(),
            rv == recipients_view(h.policies@),
            parts == spec_recipient_parts(rv),
            out@ == start + spec_concat(parts.take(i as int)),
            forall|j: int| 0 <= j < i ==> spec_recipient_fits(#[trigger] rv[j]),
        decreases n - i,
    {
        proof {
            lemma_concat_take(parts, i as int);
        }
        if !write_recipient(out, &h.policies[i].0, &h.policies[i].1) {
            assert(!spec_recipient_fits(h@.recipients[i as int]));
            return false;
        }
        i += 1;
    }
    assert(parts.take(n as int) =~= parts);
    extend_bytes(out, KEY_ALGO.as_slice());
    write_algo(out, &h.algo);
    assert(out@ =~= before + spec_msgpack_short(h@));
    true
}

/// The marker of a map of one entry.
pub const MAP1: [u8; 1] = [0x81];

/// The marker of a map of two entries.
pub const MAP2: [u8; 1] = [0x82];

/// The marker of a map of three entries.
pub const MAP3: [u8; 1] = [0x83];

/// The marker of an array of two items.
pub const ARRAY2: [u8; 1] = [0x92];

proof fn lemma_small_headers()
    ensures
        spec_map_header(1) == MAP1@,
        spec_map_header(2) == MAP2@,
        spec_map_header(3) == MAP3@,
        spec_array_header(2) == ARRAY2@,
{
    assert(spec_map_header(1) =~= MAP1@);
    assert(spec_map_header(2) =~= MAP2@);
    assert(spec_map_header(3) =~= MAP3@);
    assert(spec_array_header(2) =~= ARRAY2@);
}

/// The view of an optional text.
pub open spec fn opt_text_view(t: Option<String>) -> Option<Seq<char>> {
    match t {
        Some(v) => Some(v@),
        None => None,
    }
}

/// Reads an optional text: nil, or a string.
fn read_opt_text(input: &[u8], pos: usize) -> (res: Option<(Option<String>, usize)>)
    requires
        pos <= input@.len(),
    ensures
        res matches Some((_, next)) ==> pos < next <= input@.len(),
        forall|t: Option<Seq<char>>| #[trigger]
            prefix_at(input@, pos as int, spec_opt_text(t)) && (t matches Some(v) ==> encode_utf8(
                v,
            ).len() < 0x1_0000_0000) ==> (res matches Some((o, next)) && opt_text_view(o) == t
                && next == pos + spec_opt_text(t).len()),
{
    let nil = read_nil(input, pos);
    let res = match nil {
        Some(next) => Some((None, next)),
        None => match read_text(input, pos) {
            Some((s, next)) => Some((Some(s), next)),
            None => None,
        },
    };
    proof {
        assert forall|t: Option<Seq<char>>| #[trigger]
            prefix_at(input@, pos as int, spec_opt_text(t)) && (t matches Some(v) ==> encode_utf8(
                v,
            ).len() < 0x1_0000_0000) implies (res matches Some((o, next)) && opt_text_view(o) == t
            && next == pos + spec_opt_text(t).len()) by {
            match t {
                None => {},
                Some(v) => {
                    let e = spec_text(v);
                    assert(prefix_at(input@, pos as int, spec_text(v)));
                    assert(input@.subrange(pos as int, pos + e.len())[0] == input@[pos as int]);
                    assert(e[0] != 0xc0u8);
                    if nil is Some {
                        assert(input@.subrange(pos as int, pos + 1)[0] == input@[pos as int]);
                        assert(spec_nil()[0] == 0xc0u8);
                    }
                },
            }
        }
    }
    res
}

/// Reads an attribute. It reads back what [`write_attr`] wrote.
fn read_attr(input: &[u8], pos: usize) -> (res: Option<(Attribute, usize)>)
    requires
        pos <= input@.len(),
    ensures
        res matches Some((_, next)) ==> pos < next <= input@.len(),
        forall|a: AttributeView| #[trigger]
            prefix_at(input@, pos as int, spec_attr(a)) && spec_attr_fits(a) ==> (
            res matches Some((attr, next)) && attr@ == a && next == pos + spec_attr(a).len()),
{
    let p1 = expect_bytes(input, pos, MAP2.as_slice());
    let p2 = match p1 {
        Some(p) => expect_bytes(input, p, KEY_TYPE.as_slice()),
        None => None,
    };
    let r3 = match p2 {
        Some(p) => read_text(input, p),
        None => None,
    };
    let res = match r3 {
        None => None,
        Some((atype, p3)) => match expect_bytes(input, p3, KEY_VALUE.as_slice()) {
            None => None,
            Some(p4) => match read_opt_text(input, p4) {
                None => None,
                Some((value, p5)) => Some((Attribute { atype, value }, p5)),
            },
        },
    };
    proof {
        lemma_small_headers();
        assert forall|a: AttributeView| #[trigger]
            prefix_at(input@, pos as int, spec_attr(a)) && spec_attr_fits(a) implies (
        res matches Some((attr, next)) && attr@ == a && next == pos + spec_attr(a).len()) by {
            let s1 = spec_map_header(2);
            let s2 = s1 + KEY_TYPE@;
            let s3 = s2 + spec_text(a.atype);
            let s4 = s3 + KEY_VALUE@;
            lemma_prefix_split(input@, pos as int, s4, spec_opt_text(a.value));
            lemma_prefix_split(input@, pos as int, s3, KEY_VALUE@);
            lemma_prefix_split(input@, pos as int, s2, spec_text(a.atype));
            lemma_prefix_split(input@, pos as int, s1, KEY_TYPE@);
            assert(prefix_at(input@, pos + s2.len(), spec_text(a.atype)));
            assert(prefix_at(input@, pos + s4.len(), spec_opt_text(a.value)));
        }
    }
    res
}

/// What stands before the attributes in the encoding of a policy.
pub open spec fn spec_policy_head(timestamp: u64, count: nat) -> Seq<u8> {
    spec_map_header(2) + KEY_TIMESTAMP@ + spec_uint(timestamp) + KEY_CON@ + spec_array_header(
        count,
    )
}

/// Reads what stands before the attributes of a policy: the timestamp and the
/// number of attributes.
fn read_policy_head(input: &[u8], pos: usize) -> (res: Option<(u64, usize, usize)>)
    requires
        pos <= input@.len(),
    ensures
        res matches Some((_, _, next)) ==> pos < next <= input@.len(),
        forall|p: PolicyView| #[trigger]
            prefix_at(input@, pos as int, spec_policy(p)) && spec_policy_fits(p) ==> {
                &&& res matches Some((ts, count, next))
                &&& ts == p.timestamp
                &&& count == p.con.len()
                &&& next == pos + spec_policy_head(p.timestamp, p.con.len()).len()
                &&& prefix_at(input@, next as int, spec_concat(spec_attr_parts(p.con)))
            },
{
    let p1 = expect_bytes(input, pos, MAP2.as_slice());
    let p2 = match p1 {
        Some(p) => expect_bytes(input, p, KEY_TIMESTAMP.as_slice()),
        None => None,
    };
    let r3 = match p2 {
        Some(p) => read_uint(input, p),
        None => None,
    };
    let res = match r3 {
        None => None,
        Some((ts, p3)) => match expect_bytes(input, p3, KEY_CON.as_slice()) {
            None => None,
            Some(p4) => match read_array_header(input, p4) {
                None => None,
                Some((count, p5)) => Some((ts, count, p5)),
            },
        },
    };
    proof {
        lemma_small_headers();
        assert forall|p: PolicyView| #[trigger]
            prefix_at(input@, pos as int, spec_policy(p)) && spec_policy_fits(p) implies {
            &&& res matches Some((ts, count, next))
            &&& ts == p.timestamp
            &&& count == p.con.len()
            &&& next == pos + spec_policy_head(p.timestamp, p.con.len()).len()
            &&& prefix_at(input@, next as int, spec_concat(spec_attr_parts(p.con)))
        } by {
            let s1 = spec_map_header(2);
            let s2 = s1 + KEY_TIMESTAMP@;
            let s3 = s2 + spec_uint(p.timestamp);
            let s4 = s3 + KEY_CON@;
            let s5 = s4 + spec_array_header(p.con.len());
            lemma_prefix_split(input@, pos as int, s5, spec_concat(spec_attr_parts(p.con)));
            lemma_prefix_split(input@, pos as int, s4, spec_array_header(p.con.len()));
            lemma_prefix_split(input@, pos as int, s3, KEY_CON@);
            lemma_prefix_split(input@, pos as int, s2, spec_uint(p.timestamp));
            lemma_prefix_split(input@, pos as int, s1, KEY_TIMESTAMP@);
            assert(prefix_at(input@, pos + s2.len(), spec_uint(p.timestamp)));
            assert(prefix_at(input@, pos + s4.len(), spec_array_header(p.con.len())));
        }
    }
    res
}

/// Reads a policy. It reads back what [`write_policy`] wrote.
fn read_policy(input: &[u8], pos: usize) -> (res: Option<(HiddenPolicy, usize)>)
    requires
        pos <= input@.len(),
    ensures
        res matches Some((_, next)) ==> pos < next <= input@.len(),
        forall|p: PolicyView| #[trigger]
            prefix_at(input@, pos as int, spec_policy(p)) && spec_policy_fits(p) ==> (
            res matches Some((policy, next)) && policy@ == p && next == pos + spec_policy(
                p,
            ).len()),
{
    let head = read_policy_head(input, pos);
    if head.is_none() {
        return None;
    }
    let (timestamp, count, start) = head.unwrap();
    let mut con: Vec<Attribute> = Vec::new();
    let mut cur: usize = start;
    let mut i: usize = 0;
    proof {
        assert forall|p: PolicyView| #[trigger]
            prefix_at(input@, pos as int, spec_policy(p)) && spec_policy_fits(p) implies cur
            == start + spec_concat(spec_attr_parts(p.con).take(0)).len() && con_view(con@)
            == p.con.take(0) by {
            assert(spec_attr_parts(p.con).take(0) =~= Seq::<Seq<u8>>::empty());
            assert(con_view(con@) =~= p.con.take(0));
        }
    }
    while i < count
        invariant
            i <= count,
            pos < start <= cur <= input@.len(),
            con@.len() == i,
            forall|p: PolicyView| #[trigger]
                prefix_at(input@, pos as int, spec_policy(p)) && spec_policy_fits(p) ==> {
                    &&& timestamp == p.timestamp
                    &&& count == p.con.len()
                    &&& start == pos + spec_policy_head(p.timestamp, p.con.len()).len()
                    &&& prefix_at(input@, start as int, spec_concat(spec_attr_parts(p.con)))
                },
            forall|p: PolicyView| #[trigger]
                prefix_at(input@, pos as int, spec_policy(p)) && spec_policy_fits(p) ==> cur
                    == start + spec_concat(spec_attr_parts(p.con).take(i as int)).len(),
            forall|p: PolicyView| #[trigger]
                prefix_at(input@, pos as int, spec_policy(p)) && spec_policy_fits(p) ==> con_view(
                    con@,
                ) == p.con.take(i as int),
        decreases count - i,
    {
        let r = read_attr(input, cur);
        let ghost old_con = con@;
        let ghost old_cur = cur;
        proof {
            assert forall|p: PolicyView| #[trigger]
                prefix_at(input@, pos as int, spec_policy(p)) && spec_policy_fits(p) implies (
            r matches Some((attr, next)) && attr@ == p.con[i as int] && next == start
                + spec_concat(spec_attr_parts(p.con).take(i + 1)).len()) by {
                lemma_concat_part_at(input@, start as int, spec_attr_parts(p.con), i as int);
                assert(prefix_at(input@, old_cur as int, spec_attr(p.con[i as int])));
                assert(spec_attr_fits(p.con[i as int]));
            }
        }
        match r {
            Some((attr, next)) => {
                con.push(attr);
                cur = next;
            },
            None => {
                return None;
            },
        }
        proof {
            assert forall|p: PolicyView| #[trigger]
                prefix_at(input@, pos as int, spec_policy(p)) && spec_policy_fits(p) implies con_view(
                con@,
            ) == p.con.take(i + 1) by {
                assert(con_view(old_con) == p.con.take(i as int));
                assert(con_view(con@) =~= con_view(old_con).push(p.con[i as int]));
                assert(p.con.take(i + 1) =~= p.con.take(i as int).push(p.con[i as int]));
            }
        }
        i += 1;
    }
    let policy = HiddenPolicy { timestamp, con };
    proof {
        assert forall|p: PolicyView| #[trigger]
            prefix_at(input@, pos as int, spec_policy(p)) && spec_policy_fits(p) implies policy@
            == p && cur == pos + spec_policy(p).len() by {
            assert(spec_attr_parts(p.con).take(count as int) =~= spec_attr_parts(p.con));
            assert(p.con.take(count as int) =~= p.con);
        }
    }
    Some((policy, cur))
}

/// Reads one recipient. It reads back what [`write_recipient`] wrote.
fn read_recipient(input: &[u8], pos: usize) -> (res: Option<((String, RecipientHeader), usize)>)
    requires
        pos <= input@.len(),
    ensures
        res matches Some((_, next)) ==> pos < next <= input@.len(),
        forall|r: RecipientView| #[trigger]
            prefix_at(input@, pos as int, spec_recipient(r)) && spec_recipient_fits(r) ==> (
            res matches Some((entry, next)) && recipient_view(entry) == r && next == pos
                + spec_recipient(r).len()),
{
    let r1 = read_text(input, pos);
    let r4 = match r1 {
        None => None,
        Some((id, p1)) => match expect_bytes(input, p1, MAP2.as_slice()) {
            None => None,
            Some(p2) => match expect_bytes(input, p2, KEY_P.as_slice()) {
                None => None,
                Some(p3) => match read_policy(input, p3) {
                    None => None,
                    Some((policy, p4)) => Some((id, policy, p4)),
                },
            },
        },
    };
    let res = match r4 {
        None => None,
        Some((id, policy, p4)) => match expect_bytes(input, p4, KEY_CT.as_slice()) {
            None => None,
            Some(p5) => match read_byte_array::<284>(input, p5) {
                None => None,
                Some((ct, p6)) => Some(((id, RecipientHeader { policy, ct }), p6)),
            },
        },
    };
    proof {
        lemma_small_headers();
        assert forall|r: RecipientView| #[trigger]
            prefix_at(input@, pos as int, spec_recipient(r)) && spec_recipient_fits(r) implies (
        res matches Some((entry, next)) && recipient_view(entry) == r && next == pos
            + spec_recipient(r).len()) by {
            let s1 = spec_text(r.id);
            let s2 = s1 + spec_map_header(2);
            let s3 = s2 + KEY_P@;
            let s4 = s3 + spec_policy(r.policy);
            let s5 = s4 + KEY_CT@;
            lemma_prefix_split(input@, pos as int, s5, spec_byte_array(r.ct));
            lemma_prefix_split(input@, pos as int, s4, KEY_CT@);
            lemma_prefix_split(input@, pos as int, s3, spec_policy(r.policy));
            lemma_prefix_split(input@, pos as int, s2, KEY_P@);
            lemma_prefix_split(input@, pos as int, s1, spec_map_header(2));
            assert(prefix_at(input@, pos as int, spec_text(r.id)));
            assert(prefix_at(input@, pos + s3.len(), spec_policy(r.policy)));
            assert(prefix_at(input@, pos + s5.len(), spec_byte_array(r.ct)));
        }
    }
    res
}

/// What follows the variant's name in the encoding of a cipher.
pub open spec fn spec_iv_body(iv: Seq<u8>) -> Seq<u8> {
    spec_map_header(1) + KEY_IV@ + spec_byte_array(iv)
}

/// Reads what follows the variant's name of a cipher: an initialization vector
/// of `N` bytes.
fn read_iv_body<const N: usize>(input: &[u8], pos: usize) -> (res: Option<([u8; N], usize)>)
    requires
        pos <= input@.len(),
        N < 0x1_0000_0000,
    ensures
        res matches Some((_, next)) ==> pos < next <= input@.len(),
        forall|iv: Seq<u8>| #[trigger]
            prefix_at(input@, pos as int, spec_iv_body(iv)) && iv.len() == N ==> (
            res matches Some((a, next)) && a@ == iv && next == pos + spec_iv_body(iv).len()),
{
    let p1 = expect_bytes(input, pos, MAP1.as_slice());
    let p2 = match p1 {
        Some(p) => expect_bytes(input, p, KEY_IV.as_slice()),
        None => None,
    };
    let res = match p2 {
        Some(p) => read_byte_array::<N>(input, p),
        None => None,
    };
    proof {
        lemma_small_headers();
        assert forall|iv: Seq<u8>| #[trigger]
            prefix_at(input@, pos as int, spec_iv_body(iv)) && iv.len() == N implies (
        res matches Some((a, next)) && a@ == iv && next == pos + spec_iv_body(iv).len()) by {
            let s1 = spec_map_header(1);
            let s2 = s1 + KEY_IV@;
            lemma_prefix_split(input@, pos as int, s2, spec_byte_array(iv));
            lemma_prefix_split(input@, pos as int, s1, KEY_IV@);
            assert(prefix_at(input@, pos + s2.len(), spec_byte_array(iv)));
        }
    }
    res
}

/// The name of a cipher's variant, as it is written.
pub open spec fn spec_algo_name(a: Algorithm) -> Seq<u8> {
    match a {
        Algorithm::Aes128Gcm { .. } => NAME_AES128GCM@,
        Algorithm::XSalsa20Poly1305 { .. } => NAME_XSALSA20POLY1305@,
        Algorithm::Aes128Ocb { .. } => NAME_AES128OCB@,
        Algorithm::Aegis128 { .. } => NAME_AEGIS128@,
    }
}

/// The initialization vector of a cipher.
pub open spec fn spec_algo_iv(a: Algorithm) -> Seq<u8> {
    match a {
        Algorithm::Aes128Gcm { iv } => iv@,
        Algorithm::XSalsa20Poly1305 { iv } => iv@,
        Algorithm::Aes128Ocb { iv } => iv@,
        Algorithm::Aegis128 { iv } => iv@,
    }
}

/// At most one variant's name stands at a position.
proof fn lemma_algo_names_distinct(input: Seq<u8>, pos: int)
    ensures
        !(prefix_at(input, pos, NAME_AES128GCM@) && prefix_at(input, pos, NAME_XSALSA20POLY1305@)),
        !(prefix_at(input, pos, NAME_AES128GCM@) && prefix_at(input, pos, NAME_AES128OCB@)),
        !(prefix_at(input, pos, NAME_AES128GCM@) && prefix_at(input, pos, NAME_AEGIS128@)),
        !(prefix_at(input, pos, NAME_XSALSA20POLY1305@) && prefix_at(input, pos, NAME_AES128OCB@)),
        !(prefix_at(input, pos, NAME_XSALSA20POLY1305@) && prefix_at(input, pos, NAME_AEGIS128@)),
        !(prefix_at(input, pos, NAME_AES128OCB@) && prefix_at(input, pos, NAME_AEGIS128@)),
{
    if prefix_at(input, pos, NAME_AES128GCM@) {
        assert(input.subrange(pos, pos + 10)[0] == input[pos]);
        assert(input.subrange(pos, pos + 10)[7] == input[pos + 7]);
    }
    if prefix_at(input, pos, NAME_AES128OCB@) {
        assert(input.subrange(pos, pos + 10)[0] == input[pos]);
        assert(input.subrange(pos, pos + 10)[7] == input[pos + 7]);
    }
    if prefix_at(input, pos, NAME_XSALSA20POLY1305@) {
        assert(input.subrange(pos, pos + 17)[0] == input[pos]);
    }
    if prefix_at(input, pos, NAME_AEGIS128@) {
        assert(input.subrange(pos, pos + 9)[0] == input[pos]);
    }
}

/// Reads a cipher. An unknown variant name is refused.
fn read_algo(input: &[u8], pos: usize) -> (res: Option<(Algorithm, usize)>)
    requires
        pos <= input@.len(),
    ensures
        res matches Some((_, next)) ==> pos < next <= input@.len(),
        forall|a: Algorithm| #[trigger]
            prefix_at(input@, pos as int, spec_algo(a)) ==> (res matches Some((algo, next)) && algo
                == a && next == pos + spec_algo(a).len()),
{
    let p1 = expect_bytes(input, pos, MAP1.as_slice());
    if p1.is_none() {
        proof {
            lemma_small_headers();
            assert forall|a: Algorithm| #[trigger]
                prefix_at(input@, pos as int, spec_algo(a)) implies false by {
                lemma_prefix_split(
                    input@,
                    pos as int,
                    spec_map_header(1),
                    spec_algo_name(a) + spec_iv_body(spec_algo_iv(a)),
                );
                assert(spec_algo(a) =~= spec_map_header(1) + (spec_algo_name(a) + spec_iv_body(
                    spec_algo_iv(a),
                )));
            }
        }
        return None;
    }
    let p = p1.unwrap();
    let gcm = expect_bytes(input, p, NAME_AES128GCM.as_slice());
    let salsa = expect_bytes(input, p, NAME_XSALSA20POLY1305.as_slice());
    let ocb = expect_bytes(input, p, NAME_AES128OCB.as_slice());
    let aegis = expect_bytes(input, p, NAME_AEGIS128.as_slice());
    let res = if let Some(q) = gcm {
        match read_iv_body::<16>(input, q) {
            Some((iv, next)) => Some((Algorithm::Aes128Gcm { iv }, next)),
            None => None,
        }
    } else if let Some(q) = salsa {
        match read_iv_body::<24>(input, q) {
            Some((iv, next)) => Some((Algorithm::XSalsa20Poly1305 { iv }, next)),
            None => None,
        }
    } else if let Some(q) = ocb {
        match read_iv_body::<12>(input, q) {
            Some((iv, next)) => Some((Algorithm::Aes128Ocb { iv }, next)),
            None => None,
        }
    } else if let Some(q) = aegis {
        match read_iv_body::<16>(input, q) {
            Some((iv, next)) => Some((Algorithm::Aegis128 { iv }, next)),
            None => None,
        }
    } else {
        None
    };
    proof {
        lemma_small_headers();
        lemma_algo_names_distinct(input@, p as int);
        assert forall|a: Algorithm| #[trigger]
            prefix_at(input@, pos as int, spec_algo(a)) implies (res matches Some((algo, next))
            && algo == a && next == pos + spec_algo(a).len()) by {
            let name = spec_algo_name(a);
            let body = spec_iv_body(spec_algo_iv(a));
            assert(spec_algo(a) =~= spec_map_header(1) + name + body);
            lemma_prefix_split(input@, pos as int, spec_map_header(1) + name, body);
            lemma_prefix_split(input@, pos as int, spec_map_header(1), name);
            assert(prefix_at(input@, p as int, name));
            assert(prefix_at(input@, p + name.len(), body));
            match a {
                Algorithm::Aes128Gcm { iv } => {
                    let got = res->Some_0.0->Aes128Gcm_iv;
                    assert(got@ == iv@);
                    assert(got =~= iv);
                },
                Algorithm::XSalsa20Poly1305 { iv } => {
                    let got = res->Some_0.0->XSalsa20Poly1305_iv;
                    assert(got@ == iv@);
                    assert(got =~= iv);
                },
                Algorithm::Aes128Ocb { iv } => {
                    let got = res->Some_0.0->Aes128Ocb_iv;
                    assert(got@ == iv@);
                    assert(got =~= iv);
                },
                Algorithm::Aegis128 { iv } => {
                    let got = res->Some_0.0->Aegis128_iv;
                    assert(got@ == iv@);
                    assert(got =~= iv);
                },
            }
        }
    }
    res
}

/// Reads an optional integer: nil, or an unsigned integer.
fn read_opt_uint(input: &[u8], pos: usize) -> (res: Option<(Option<u64>, usize)>)
    requires
        pos <= input@.len(),
    ensures
        res matches Some((_, next)) ==> pos < next <= input@.len(),
        forall|n: Option<u64>| #[trigger]
            prefix_at(input@, pos as int, spec_opt_uint(n)) ==> (res matches Some((o, next)) && o
                == n && next == pos + spec_opt_uint(n).len()),
{
    let nil = read_nil(input, pos);
    let res = match nil {
        Some(next) => Some((None, next)),
        None => match read_uint(input, pos) {
            Some((v, next)) => Some((Some(v), next)),
            None => None,
        },
    };
    proof {
        assert forall|n: Option<u64>| #[trigger]
            prefix_at(input@, pos as int, spec_opt_uint(n)) implies (res matches Some((o, next))
            && o == n && next == pos + spec_opt_uint(n).len()) by {
            match n {
                None => {},
                Some(v) => {
                    let e = spec_uint(v);
                    assert(prefix_at(input@, pos as int, spec_uint(v)));
                    assert(input@.subrange(pos as int, pos + e.len())[0] == input@[pos as int]);
                    assert(e[0] != 0xc0u8);
                    if nil is Some {
                        assert(input@.subrange(pos as int, pos + 1)[0] == input@[pos as int]);
                        assert(spec_nil()[0] == 0xc0u8);
                    }
                },
            }
        }
    }
    res
}

/// What follows the variant's name in the encoding of the streaming mode.
pub open spec fn spec_streaming_body(segment_size: u32, lo: u64, hi: Option<u64>) -> Seq<u8> {
    spec_map_header(2) + KEY_SEGMENT_SIZE@ + spec_uint(segment_size as u64) + KEY_SIZE_HINT@
        + spec_array_header(2) + spec_uint(lo) + spec_opt_uint(hi)
}

/// What follows the variant's name in the encoding of the in-memory mode.
pub open spec fn spec_inmemory_body(size: u64) -> Seq<u8> {
    spec_map_header(1) + KEY_SIZE@ + spec_uint(size)
}

/// Reads what follows the name of the streaming mode.
fn read_streaming_body(input: &[u8], pos: usize) -> (res: Option<(Mode, usize)>)
    requires
        pos <= input@.len(),
    ensures
        res matches Some((_, next)) ==> pos < next <= input@.len(),
        forall|segment_size: u32, lo: u64, hi: Option<u64>| #[trigger]
            prefix_at(input@, pos as int, spec_streaming_body(segment_size, lo, hi)) ==> (
            res matches Some((mode, next)) && mode == (Mode::Streaming {
                segment_size,
                size_hint: (lo, hi),
            }) && next == pos + spec_streaming_body(segment_size, lo, hi).len()),
{
    let p1 = expect_bytes(input, pos, MAP2.as_slice());
    let p2 = match p1 {
        Some(p) => expect_bytes(input, p, KEY_SEGMENT_SIZE.as_slice()),
        None => None,
    };
    let r3 = match p2 {
        Some(p) => read_uint(input, p),
        None => None,
    };
    let r6 = match r3 {
        None => None,
        Some((seg, p3)) => match expect_bytes(input, p3, KEY_SIZE_HINT.as_slice()) {
            None => None,
            Some(p4) => match expect_bytes(input, p4, ARRAY2.as_slice()) {
                None => None,
                Some(p5) => match read_uint(input, p5) {
                    None => None,
                    Some((lo, p6)) => Some((seg, lo, p6)),
                },
            },
        },
    };
    let res = match r6 {
        None => None,
        Some((seg, lo, p6)) => match read_opt_uint(input, p6) {
            None => None,
            Some((hi, p7)) => if seg <= 0xFFFF_FFFF {
                Some((Mode::Streaming { segment_size: seg as u32, size_hint: (lo, hi) }, p7))
            } else {
                None
            },
        },
    };
    proof {
        lemma_small_headers();
        assert forall|segment_size: u32, lo: u64, hi: Option<u64>| #[trigger]
            prefix_at(input@, pos as int, spec_streaming_body(segment_size, lo, hi)) implies (
        res matches Some((mode, next)) && mode == (Mode::Streaming {
            segment_size,
            size_hint: (lo, hi),
        }) && next == pos + spec_streaming_body(segment_size, lo, hi).len()) by {
            let s1 = spec_map_header(2);
            let s2 = s1 + KEY_SEGMENT_SIZE@;
            let s3 = s2 + spec_uint(segment_size as u64);
            let s4 = s3 + KEY_SIZE_HINT@;
            let s5 = s4 + spec_array_header(2);
            let s6 = s5 + spec_uint(lo);
            lemma_prefix_split(input@, pos as int, s6, spec_opt_uint(hi));
            lemma_prefix_split(input@, pos as int, s5, spec_uint(lo));
            lemma_prefix_split(input@, pos as int, s4, spec_array_header(2));
            lemma_prefix_split(input@, pos as int, s3, KEY_SIZE_HINT@);
            lemma_prefix_split(input@, pos as int, s2, spec_uint(segment_size as u64));
            lemma_prefix_split(input@, pos as int, s1, KEY_SEGMENT_SIZE@);
            assert(prefix_at(input@, pos + s2.len(), spec_uint(segment_size as u64)));
            assert(prefix_at(input@, pos + s5.len(), spec_uint(lo)));
            assert(prefix_at(input@, pos + s6.len(), spec_opt_uint(hi)));
        }
    }
    res
}

/// Reads what follows the name of the in-memory mode.
fn read_inmemory_body(input: &[u8], pos: usize) -> (res: Option<(Mode, usize)>)
    requires
        pos <= input@.len(),
    ensures
        res matches Some((_, next)) ==> pos < next <= input@.len(),
        forall|size: u64| #[trigger]
            prefix_at(input@, pos as int, spec_inmemory_body(size)) ==> (res matches Some(
                (mode, next),
            ) && mode == (Mode::InMemory { size }) && next == pos + spec_inmemory_body(size).len()),
{
    let p1 = expect_bytes(input, pos, MAP1.as_slice());
    let p2 = match p1 {
        Some(p) => expect_bytes(input, p, KEY_SIZE.as_slice()),
        None => None,
    };
    let res = match p2 {
        None => None,
        Some(p) => match read_uint(input, p) {
            None => None,
            Some((size, next)) => Some((Mode::InMemory { size }, next)),
        },
    };
    proof {
        lemma_small_headers();
        assert forall|size: u64| #[trigger]
            prefix_at(input@, pos as int, spec_inmemory_body(size)) implies (res matches Some(
            (mode, next),
        ) && mode == (Mode::InMemory { size }) && next == pos + spec_inmemory_body(size).len()) by {
            let s1 = spec_map_header(1);
            let s2 = s1 + KEY_SIZE@;
            lemma_prefix_split(input@, pos as int, s2, spec_uint(size));
            lemma_prefix_split(input@, pos as int, s1, KEY_SIZE@);
            assert(prefix_at(input@, pos + s2.len(), spec_uint(size)));
        }
    }
    res
}

/// Reads a mode. An unknown variant name is refused.
fn read_mode(input: &[u8], pos: usize) -> (res: Option<(Mode, usize)>)
    requires
        pos <= input@.len(),
    ensures
        res matches Some((_, next)) ==> pos < next <= input@.len(),
        forall|m: Mode| #[trigger]
            prefix_at(input@, pos as int, spec_mode(m)) ==> (res matches Some((mode, next)) && mode
                == m && next == pos + spec_mode(m).len()),
{
    let p1 = expect_bytes(input, pos, MAP1.as_slice());
    let streaming = match p1 {
        Some(p) => expect_bytes(input, p, NAME_STREAMING.as_slice()),
        None => None,
    };
    let inmemory = match p1 {
        Some(p) => expect_bytes(input, p, NAME_INMEMORY.as_slice()),
        None => None,
    };
    let res = if let Some(q) = streaming {
        read_streaming_body(input, q)
    } else if let Some(q) = inmemory {
        read_inmemory_body(input, q)
    } else {
        None
    };
    proof {
        lemma_small_headers();
        assert forall|m: Mode| #[trigger] prefix_at(input@, pos as int, spec_mode(m)) implies (
        res matches Some((mode, next)) && mode == m && next == pos + spec_mode(m).len()) by {
            let p = pos + 1;
            match m {
                Mode::Streaming { segment_size, size_hint } => {
                    let body = spec_streaming_body(segment_size, size_hint.0, size_hint.1);
                    assert(spec_mode(m) =~= spec_map_header(1) + NAME_STREAMING@ + body);
                    lemma_prefix_split(
                        input@,
                        pos as int,
                        spec_map_header(1) + NAME_STREAMING@,
                        body,
                    );
                    lemma_prefix_split(input@, pos as int, spec_map_header(1), NAME_STREAMING@);
                    assert(prefix_at(input@, p + NAME_STREAMING@.len(), body));
                },
                Mode::InMemory { size } => {
                    let body = spec_inmemory_body(size);
                    assert(spec_mode(m) =~= spec_map_header(1) + NAME_INMEMORY@ + body);
                    lemma_prefix_split(
                        input@,
                        pos as int,
                        spec_map_header(1) + NAME_INMEMORY@,
                        body,
                    );
                    lemma_prefix_split(input@, pos as int, spec_map_header(1), NAME_INMEMORY@);
                    assert(prefix_at(input@, p + NAME_INMEMORY@.len(), body));
                    assert(input@.subrange(p, p + 9)[0] == input@[p]);
                    if streaming is Some {
                        assert(input@.subrange(p, p + 10)[0] == input@[p]);
                    }
                },
            }
        }
    }
    res
}

/// What stands before the recipients in the encoding of a header, in full or
/// without the mode.
pub open spec fn spec_header_head(count: nat, full: bool) -> Seq<u8> {
    spec_map_header(
        if full {
            3
        } else {
            2
        },
    ) + KEY_RS@ + spec_map_header(count)
}

/// What stands behind the recipients in the encoding of a header, in full or
/// without the mode.
pub open spec fn spec_header_tail(algo: Algorithm, mode: Mode, full: bool) -> Seq<u8> {
    if full {
        KEY_ALGO@ + spec_algo(algo) + KEY_MODE@ + spec_mode(mode)
    } else {
        KEY_ALGO@ + spec_algo(algo)
    }
}

/// The encoding of a header falls into three parts.
proof fn lemma_header_parts(h: HeaderView, full: bool)
    ensures
        spec_msgpack_form(h, full) == spec_header_head(h.recipients.len(), full) + spec_concat(
            spec_recipient_parts(h.recipients),
        ) + spec_header_tail(h.algo, h.mode, full),
{
    assert(spec_msgpack_form(h, full) =~= spec_header_head(h.recipients.len(), full) + spec_concat(
        spec_recipient_parts(h.recipients),
    ) + spec_header_tail(h.algo, h.mode, full));
}

/// Reads what stands before the recipients of a header: whether the header is
/// written in full, and the number of its recipients.
fn read_header_head(input: &[u8], pos: usize) -> (res: Option<(usize, bool, usize)>)
    requires
        pos <= input@.len(),
    ensures
        res matches Some((_, _, next)) ==> pos < next <= input@.len(),
        forall|count: nat, full: bool| #[trigger]
            prefix_at(input@, pos as int, spec_header_head(count, full)) && count < 0x1_0000_0000
                ==> (res matches Some((n, f, next)) && n == count && f == full && next == pos
                + spec_header_head(count, full).len()),
{
    let long = expect_bytes(input, pos, MAP3.as_slice());
    let short = expect_bytes(input, pos, MAP2.as_slice());
    let p1 = if long.is_some() {
        long
    } else {
        short
    };
    let full = long.is_some();
    let p2 = match p1 {
        Some(p) => expect_bytes(input, p, KEY_RS.as_slice()),
        None => None,
    };
    let r3 = match p2 {
        Some(p) => read_map_header(input, p),
        None => None,
    };
    let res = match r3 {
        Some((n, next)) => Some((n, full, next)),
        None => None,
    };
    proof {
        lemma_small_headers();
        assert forall|count: nat, f: bool| #[trigger]
            prefix_at(input@, pos as int, spec_header_head(count, f)) && count
                < 0x1_0000_0000 implies (res matches Some((n, g, next)) && n == count && g == f
            && next == pos + spec_header_head(count, f).len()) by {
            let s1 = spec_map_header(
                if f {
                    3
                } else {
                    2
                },
            );
            let s2 = s1 + KEY_RS@;
            lemma_prefix_split(input@, pos as int, s2, spec_map_header(count));
            lemma_prefix_split(input@, pos as int, s1, KEY_RS@);
            assert(prefix_at(input@, pos + s2.len(), spec_map_header(count)));
            assert(input@.subrange(pos as int, pos + 1)[0] == input@[pos as int]);
            assert(MAP3@[0] == 0x83 && MAP2@[0] == 0x82);
        }
    }
    res
}

/// Reads what stands behind the recipients of a header: the cipher and, where
/// the header is written in full, the mode. Without it the mode read is the
/// default mode.
fn read_header_tail(input: &[u8], pos: usize, full: bool) -> (res: Option<(Algorithm, Mode, usize)>)
    requires
        pos <= input@.len(),
    ensures
        res matches Some((_, _, next)) ==> pos < next <= input@.len(),
        res matches Some((_, m, _)) ==> full || m == spec_default_mode(),
        forall|algo: Algorithm, mode: Mode| #[trigger]
            prefix_at(input@, pos as int, spec_header_tail(algo, mode, full)) && (full || mode
                == spec_default_mode()) ==> (res matches Some((a, m, next)) && a == algo && m
                == mode && next == pos + spec_header_tail(algo, mode, full).len()),
{
    let p1 = expect_bytes(input, pos, KEY_ALGO.as_slice());
    let r2 = match p1 {
        Some(p) => read_algo(input, p),
        None => None,
    };
    let res = match r2 {
        None => None,
        Some((algo, p2)) => if full {
            match expect_bytes(input, p2, KEY_MODE.as_slice()) {
                None => None,
                Some(p3) => match read_mode(input, p3) {
                    None => None,
                    Some((mode, p4)) => Some((algo, mode, p4)),
                },
            }
        } else {
            Some((algo, Mode::default(), p2))
        },
    };
    proof {
        assert forall|algo: Algorithm, mode: Mode| #[trigger]
            prefix_at(input@, pos as int, spec_header_tail(algo, mode, full)) && (full || mode
                == spec_default_mode()) implies (res matches Some((a, m, next)) && a == algo && m
            == mode && next == pos + spec_header_tail(algo, mode, full).len()) by {
            let s1 = KEY_ALGO@;
            let s2 = s1 + spec_algo(algo);
            lemma_prefix_split(input@, pos as int, s1, spec_algo(algo));
            if full {
                let s3 = s2 + KEY_MODE@;
                lemma_prefix_split(input@, pos as int, s3, spec_mode(mode));
                lemma_prefix_split(input@, pos as int, s2, KEY_MODE@);
                lemma_prefix_split(input@, pos as int, s1, spec_algo(algo));
                assert(prefix_at(input@, pos + s1.len(), spec_algo(algo)));
                assert(prefix_at(input@, pos + s3.len(), spec_mode(mode)));
            } else {
                assert(prefix_at(input@, pos + s1.len(), spec_algo(algo)));
            }
        }
    }
    res
}

/// Reads a header, and reports whether it was written in full. It reads back
/// what [`write_header`] wrote, and the same without the mode as a header in the
/// default mode.
fn read_header(input: &[u8], pos: usize) -> (res: Option<(Header, bool, usize)>)
    requires
        pos <= input@.len(),
    ensures
        res matches Some((_, _, next)) ==> pos < next <= input@.len(),
        res matches Some((header, full, _)) ==> full || header.mode == spec_default_mode(),
        forall|h: HeaderView, f: bool| #[trigger]
            prefix_at(input@, pos as int, spec_msgpack_form(h, f)) && spec_msgpack_fits(h) && (f
                || h.mode == spec_default_mode()) ==> (res matches Some((header, full, next))
                && header@ == h && full == f && next == pos + spec_msgpack_form(h, f).len()),
{
    let head = read_header_head(input, pos);
    proof {
        assert forall|h: HeaderView, f: bool| #[trigger]
            prefix_at(input@, pos as int, spec_msgpack_form(h, f)) && spec_msgpack_fits(h) implies {
            &&& head matches Some((n, full, next))
            &&& n == h.recipients.len()
            &&& full == f
            &&& next == pos + spec_header_head(h.recipients.len(), f).len()
            &&& prefix_at(input@, next as int, spec_concat(spec_recipient_parts(h.recipients)))
            &&& prefix_at(
                input@,
                next + spec_concat(spec_recipient_parts(h.recipients)).len(),
                spec_header_tail(h.algo, h.mode, f),
            )
        } by {
            lemma_header_parts(h, f);
            let s1 = spec_header_head(h.recipients.len(), f);
            let s2 = s1 + spec_concat(spec_recipient_parts(h.recipients));
            lemma_prefix_split(input@, pos as int, s2, spec_header_tail(h.algo, h.mode, f));
            lemma_prefix_split(
                input@,
                pos as int,
                s1,
                spec_concat(spec_recipient_parts(h.recipients)),
            );
            assert(prefix_at(input@, pos as int, spec_header_head(h.recipients.len(), f)));
        }
    }
    if head.is_none() {
        return None;
    }
    let (count, full, start) = head.unwrap();
    let mut entries: Vec<(String, RecipientHeader)> = Vec::new();
    let mut cur: usize = start;
    let mut i: usize = 0;
    proof {
        assert forall|h: HeaderView, f: bool| #[trigger]
            prefix_at(input@, pos as int, spec_msgpack_form(h, f)) && spec_msgpack_fits(h) implies cur
            == start + spec_concat(spec_recipient_parts(h.recipients).take(0)).len()
            && recipients_view(entries@) == h.recipients.take(0) by {
            assert(spec_recipient_parts(h.recipients).take(0) =~= Seq::<Seq<u8>>::empty());
            assert(recipients_view(entries@) =~= h.recipients.take(0));
        }
    }
    while i < count
        invariant
            i <= count,
            pos < start <= cur <= input@.len(),
            entries@.len() == i,
            forall|h: HeaderView, f: bool| #[trigger]
                prefix_at(input@, pos as int, spec_msgpack_form(h, f)) && spec_msgpack_fits(h) ==> {
                    &&& count == h.recipients.len()
                    &&& full == f
                    &&& start == pos + spec_header_head(h.recipients.len(), f).len()
                    &&& prefix_at(
                        input@,
                        start as int,
                        spec_concat(spec_recipient_parts(h.recipients)),
                    )
                    &&& prefix_at(
                        input@,
                        start + spec_concat(spec_recipient_parts(h.recipients)).len(),
                        spec_header_tail(h.algo, h.mode, f),
                    )
                },
            forall|h: HeaderView, f: bool| #[trigger]
                prefix_at(input@, pos as int, spec_msgpack_form(h, f)) && spec_msgpack_fits(h) ==> cur
                    == start + spec_concat(spec_recipient_parts(h.recipients).take(i as int)).len(),
            forall|h: HeaderView, f: bool| #[trigger]
                prefix_at(input@, pos as int, spec_msgpack_form(h, f)) && spec_msgpack_fits(h)
                    ==> recipients_view(entries@) == h.recipients.take(i as int),
        decreases count - i,
    {
        let r = read_recipient(input, cur);
        let ghost old_entries = entries@;
        let ghost old_cur = cur;
        proof {
            assert forall|h: HeaderView, f: bool| #[trigger]
                prefix_at(input@, pos as int, spec_msgpack_form(h, f)) && spec_msgpack_fits(h) implies (
            r matches Some((entry, next)) && recipient_view(entry) == h.recipients[i as int]
                && next == start + spec_concat(
                spec_recipient_parts(h.recipients).take(i + 1),
            ).len()) by {
                lemma_concat_part_at(
                    input@,
                    start as int,
                    spec_recipient_parts(h.recipients),
                    i as int,
                );
                assert(prefix_at(input@, old_cur as int, spec_recipient(h.recipients[i as int])));
                assert(spec_recipient_fits(h.recipients[i as int]));
            }
        }
        match r {
            Some((entry, next)) => {
                entries.push(entry);
                cur = next;
            },
            None => {
                return None;
            },
        }
        proof {
            assert forall|h: HeaderView, f: bool| #[trigger]
                prefix_at(input@, pos as int, spec_msgpack_form(h, f)) && spec_msgpack_fits(
                    h,
                ) implies recipients_view(entries@) == h.recipients.take(i + 1) by {
                assert(recipients_view(old_entries) == h.recipients.take(i as int));
                assert(recipients_view(entries@) =~= recipients_view(old_entries).push(
                    h.recipients[i as int],
                ));
                assert(h.recipients.take(i + 1) =~= h.recipients.take(i as int).push(
                    h.recipients[i as int],
                ));
            }
        }
        i += 1;
    }
    let tail = read_header_tail(input, cur, full);
    proof {
        assert forall|h: HeaderView, f: bool| #[trigger]
            prefix_at(input@, pos as int, spec_msgpack_form(h, f)) && spec_msgpack_fits(h) && (f
                || h.mode == spec_default_mode()) implies (tail matches Some((a, m, next)) && a
            == h.algo && m == h.mode && full == f && next == pos + spec_msgpack_form(h, f).len()
            && recipients_view(entries@) == h.recipients) by {
            lemma_header_parts(h, f);
            assert(spec_recipient_parts(h.recipients).take(count as int) =~= spec_recipient_parts(
                h.recipients,
            ));
            assert(h.recipients.take(count as int) =~= h.recipients);
            assert(prefix_at(input@, cur as int, spec_header_tail(h.algo, h.mode, full)));
        }
    }
    match tail {
        None => None,
        Some((algo, mode, next)) => Some((Header { policies: entries, algo, mode }, full, next)),
    }
}

/// Reports whether no attribute of the policy carries a value.
fn policy_is_hidden(policy: &HiddenPolicy) -> (hidden: bool)
    ensures
        hidden == spec_is_hidden(policy@),
{
    let n = policy.con.len();
    let mut i: usize = 0;
    while i < n
        invariant
            i <= n,
            n == policy.con@.len(),
            forall|j: int| 0 <= j < i ==> (#[trigger] policy@.con[j]).value is None,
        decreases n - i,
    {
        if policy.con[i].value.is_some() {
            assert(policy@.con[i as int].value is Some);
            return false;
        }
        i += 1;
    }
    true
}

/// Reports whether the header is well formed.
pub fn header_is_wf(header: &Header) -> (wf: bool)
    ensures
        wf == header.wf(),
{
    let n = header.policies.len();
    if n == 0 {
        return false;
    }
    let unique = ids_unique(&header.policies);
    let ascending = crate::metadata::ids_ascending(&header.policies);
    proof {
        assert(spec_recipient_ids(header@.recipients) =~= header.policies@.map_values(
            |e: (String, RecipientHeader)| e.0@,
        ));
    }
    if !unique || !ascending {
        return false;
    }
    let mut i: usize = 0;
    while i < n
        invariant
            i <= n,
            n == header.policies@.len(),
            forall|j: int|
                0 <= j < i ==> (#[trigger] header@.recipients[j]).ct.len() == 284 && spec_is_hidden(
                    header@.recipients[j].policy,
                ),
        decreases n - i,
    {
        if !policy_is_hidden(&header.policies[i].1.policy) {
            assert(!spec_is_hidden(header@.recipients[i as int].policy));
            return false;
        }
        assert(header@.recipients[i as int].ct.len() == 284);
        i += 1;
    }
    true
}

impl Header {
    /// Writes the header in its binary encoding behind what `out` holds. It fails
    /// with `ConstraintViolation`, and leaves `out` as it was, exactly when a text
    /// or a list of the header is too long to be written.
    pub fn msgpack_into(&self, out: &mut Vec<u8>) -> (res: Result<(), Error>)
        ensures
            match res {
                Ok(_) => spec_msgpack_fits(self@) && final(out)@ == old(out)@ + spec_msgpack(
                    self@,
                ),
                Err(e) => {
                    &&& e == Error::ConstraintViolation
                    &&& !spec_msgpack_fits(self@)
                    &&& final(out)@ == old(out)@
                },
            },
    {
        let mut buf: Vec<u8> = Vec::new();
        if write_header(&mut buf, self) {
            assert(buf@ =~= spec_msgpack(self@));
            extend_bytes(out, buf.as_slice());
            Ok(())
        } else {
            Err(Error::ConstraintViolation)
        }
    }

    /// Reads a header from its binary encoding. It succeeds exactly when `bytes`
    /// decode to a well-formed header, and then returns that header; no bytes
    /// decode to two headers. A header written without its mode is read in the
    /// default mode. Everything else fails with `FormatViolation`: unknown
    /// variant names, integers or lengths in a longer form than the shortest,
    /// fields in another order, a ciphertext of another length than the scheme's,
    /// a policy that carries a value, recipients out of order, an identifier that
    /// occurs twice, no recipient at all, or bytes left over.
    pub fn msgpack_from(bytes: &[u8]) -> (res: Result<Header, Error>)
        ensures
            match res {
                Ok(header) => spec_decodes(bytes@, header@),
                Err(e) => e == Error::FormatViolation && forall|h: HeaderView|
                    !#[trigger] spec_decodes(bytes@, h),
            },
            forall|h: HeaderView| #[trigger]
                spec_decodes(bytes@, h) ==> (res matches Ok(header) && header@ == h),
    {
        let parsed = read_header(bytes, 0);
        proof {
            assert forall|h: HeaderView| #[trigger] spec_decodes(bytes@, h) implies (
            parsed matches Some((header, full, next)) && header@ == h && next == bytes@.len()
                && spec_msgpack_form(h, full) == bytes@) by {
                assert(bytes@.subrange(0, bytes@.len() as int) =~= bytes@);
                if spec_msgpack(h) == bytes@ {
                    assert(prefix_at(bytes@, 0, spec_msgpack_form(h, true)));
                } else {
                    assert(prefix_at(bytes@, 0, spec_msgpack_form(h, false)));
                }
            }
        }
        match parsed {
            None => Err(Error::FormatViolation),
            Some((header, full, next)) => {
                if next != bytes.len() || !header_is_wf(&header) {
                    return Err(Error::FormatViolation);
                }
                let mut buf: Vec<u8> = Vec::new();
                let fits = if full {
                    write_header(&mut buf, &header)
                } else {
                    write_header_short(&mut buf, &header)
                };
                if !fits {
                    return Err(Error::FormatViolation);
                }
                assert(buf@ =~= spec_msgpack_form(header@, full));
                if !bytes_eq(buf.as_slice(), bytes) {
                    return Err(Error::FormatViolation);
                }
                Ok(header)
            },
        }
    }

    /// Turns the binary encoding of a header into its JSON text: what
    /// [`Header::to_json_string`] gives for the header that `bytes` encodes. It
    /// fails with `FormatViolation` exactly when `bytes` encodes no header.
    pub fn transcode(bytes: &[u8]) -> (res: Result<String, Error>)
        ensures
            match res {
                Ok(text) => exists|h: HeaderView| #[trigger]
                    spec_decodes(bytes@, h) && encode_utf8(text@)
                        == crate::metadata::json::spec_json(h),
                Err(e) => e == Error::FormatViolation && forall|h: HeaderView|
                    !#[trigger] spec_decodes(bytes@, h),
            },
            forall|h: HeaderView| #[trigger]
                spec_decodes(bytes@, h) ==> (res matches Ok(text) && encode_utf8(text@)
                    == crate::metadata::json::spec_json(h)),
    {
        match Header::msgpack_from(bytes) {
            Err(e) => Err(e),
            Ok(header) => header.to_json_string(),
        }
    }
}

} // verus!

//! The JSON encoding of a header.
//!
//! The text has the same shape as the binary encoding: objects with named
//! fields, an enum as an object of one entry, byte arrays as arrays of numbers.
//! It is written without white space, so a header has exactly one text. The
//! reader accepts that text, and the same text without the `mode` field, which
//! it takes for a header in the default mode; it accepts nothing else. White
//! space between the tokens, the fields of an object in another order, a field
//! it does not know and a number with a leading zero are all refused.

use crate::bytes::{bytes_eq, extend_bytes};
use crate::error::Error;
use crate::identity::{con_view, Attribute, AttributeView, HiddenPolicy, PolicyView};
use crate::json::{
    read_json_text,
    read_json_uint,
    spec_is_digit,
    spec_json_text,
    spec_json_uint,
    spec_json_uint_then,
    write_json_text,
    write_json_uint,
    JSON_NULL,
};
use crate::metadata::ser::{header_is_wf, opt_text_view};
use crate::metadata::{
    recipient_view,
    recipients_view,
    spec_default_mode,
    spec_header_wf,
    Algorithm,
    Header,
    HeaderView,
    Mode,
    RecipientHeader,
    RecipientView,
};
use crate::msgpack::{expect_bytes, string_from_utf8};
use crate::seqs::{
    lemma_concat_part_at,
    lemma_concat_take,
    lemma_prefix_split,
    prefix_at,
    spec_concat,
};
use vstd::prelude::*;
use vstd::utf8::encode_utf8;

verus! {

/// What opens an attribute: `{"type":`.
pub const J_ATTR_OPEN: [u8; 8] = [0x7b, 0x22, 0x74, 0x79, 0x70, 0x65, 0x22, 0x3a];

/// What stands between type and value of an attribute: `,"value":`.
pub const J_ATTR_MID: [u8; 9] = [0x2c, 0x22, 0x76, 0x61, 0x6c, 0x75, 0x65, 0x22, 0x3a];

/// What closes an object: `}`.
pub const J_CLOSE: [u8; 1] = [0x7d];

/// What opens a policy: `{"timestamp":`.
pub const J_POLICY_OPEN: [u8; 13] = [
    0x7b, 0x22, 0x74, 0x69, 0x6d, 0x65, 0x73, 0x74, 0x61, 0x6d, 0x70, 0x22, 0x3a,
];

/// What stands between timestamp and conjunction of a policy: `,"con":`.
pub const J_POLICY_MID: [u8; 7] = [0x2c, 0x22, 0x63, 0x6f, 0x6e, 0x22, 0x3a];

/// What stands between a recipient's identifier and policy: `:{"p":`.
pub const J_RECIPIENT_OPEN: [u8; 6] = [0x3a, 0x7b, 0x22, 0x70, 0x22, 0x3a];

/// What stands between a recipient's policy and ciphertext: `,"ct":`.
pub const J_RECIPIENT_MID: [u8; 6] = [0x2c, 0x22, 0x63, 0x74, 0x22, 0x3a];

/// What opens a header: `{"rs":`.
pub const J_HEADER_OPEN: [u8; 6] = [0x7b, 0x22, 0x72, 0x73, 0x22, 0x3a];

/// What stands between recipients and cipher of a header: `,"algo":`.
pub const J_HEADER_ALGO: [u8; 8] = [0x2c, 0x22, 0x61, 0x6c, 0x67, 0x6f, 0x22, 0x3a];

/// What stands between cipher and mode of a header: `,"mode":`.
pub const J_HEADER_MODE: [u8; 8] = [0x2c, 0x22, 0x6d, 0x6f, 0x64, 0x65, 0x22, 0x3a];

/// What opens the cipher AES-128-GCM: `{"Aes128Gcm":{"iv":`.
pub const J_AES128GCM: [u8; 19] = [
    0x7b, 0x22, 0x41, 0x65, 0x73, 0x31, 0x32, 0x38, 0x47, 0x63, 0x6d, 0x22, 0x3a, 0x7b, 0x22,
    0x69, 0x76, 0x22, 0x3a,
];

/// What opens the cipher XSalsa20-Poly1305: `{"XSalsa20Poly1305":{"iv":`.
pub const J_XSALSA20POLY1305: [u8; 26] = [
    0x7b, 0x22, 0x58, 0x53, 0x61, 0x6c, 0x73, 0x61, 0x32, 0x30, 0x50, 0x6f, 0x6c, 0x79, 0x31,
    0x33, 0x30, 0x35, 0x22, 0x3a, 0x7b, 0x22, 0x69, 0x76, 0x22, 0x3a,
];

/// What opens the cipher AES-128-OCB: `{"Aes128Ocb":{"iv":`.
pub const J_AES128OCB: [u8; 19] = [
    0x7b, 0x22, 0x41, 0x65, 0x73, 0x31, 0x32, 0x38, 0x4f, 0x63, 0x62, 0x22, 0x3a, 0x7b, 0x22,
    0x69, 0x76, 0x22, 0x3a,
];

/// What opens the cipher AEGIS-128: `{"Aegis128":{"iv":`.
pub const J_AEGIS128: [u8; 18] = [
    0x7b, 0x22, 0x41, 0x65, 0x67, 0x69, 0x73, 0x31, 0x32, 0x38, 0x22, 0x3a, 0x7b, 0x22, 0x69,
    0x76, 0x22, 0x3a,
];

/// What closes two objects: `}}`.
pub const J_CLOSE2: [u8; 2] = [0x7d, 0x7d];

/// What opens the streaming mode: `{"Streaming":{"segment_size":`.
pub const J_STREAMING_OPEN: [u8; 29] = [
    0x7b, 0x22, 0x53, 0x74, 0x72, 0x65, 0x61, 0x6d, 0x69, 0x6e, 0x67, 0x22, 0x3a, 0x7b, 0x22,
    0x73, 0x65, 0x67, 0x6d, 0x65, 0x6e, 0x74, 0x5f, 0x73, 0x69, 0x7a, 0x65, 0x22, 0x3a,
];

/// What stands between segment size and size hint: `,"size_hint":[`.
pub const J_STREAMING_MID: [u8; 14] = [
    0x2c, 0x22, 0x73, 0x69, 0x7a, 0x65, 0x5f, 0x68, 0x69, 0x6e, 0x74, 0x22, 0x3a, 0x5b,
];

/// What separates two items: `,`.
pub const J_COMMA: [u8; 1] = [0x2c];

/// What closes the streaming mode: `]}}`.
pub const J_STREAMING_CLOSE: [u8; 3] = [0x5d, 0x7d, 0x7d];

/// What opens the in-memory mode: `{"InMemory":{"size":`.
pub const J_INMEMORY_OPEN: [u8; 20] = [
    0x7b, 0x22, 0x49, 0x6e, 0x4d, 0x65, 0x6d, 0x6f, 0x72, 0x79, 0x22, 0x3a, 0x7b, 0x22, 0x73,
    0x69, 0x7a, 0x65, 0x22, 0x3a,
];

/// The items of a list, each followed by a comma, and the last by `close`.
pub open spec fn spec_terminated(items: Seq<Seq<u8>>, close: u8) -> Seq<Seq<u8>> {
    Seq::new(
        items.len(),
        |i: int|
            items[i].push(
                if i < items.len() - 1 {
                    0x2cu8
                } else {
                    close
                },
            ),
    )
}

/// A list between `open` and `close`, its items separated by commas.
pub open spec fn spec_json_list(items: Seq<Seq<u8>>, open: u8, close: u8) -> Seq<u8> {
    if items.len() == 0 {
        seq![open, close]
    } else {
        seq![open] + spec_concat(spec_terminated(items, close))
    }
}

/// An optional text: a string, or `null`.
pub open spec fn spec_json_opt_text(t: Option<Seq<char>>) -> Seq<u8> {
    match t {
        Some(v) => spec_json_text(v),
        None => JSON_NULL@,
    }
}

/// The text of an attribute.
pub open spec fn spec_json_attr(a: AttributeView) -> Seq<u8> {
    J_ATTR_OPEN@ + spec_json_text(a.atype) + J_ATTR_MID@ + spec_json_opt_text(a.value) + J_CLOSE@
}

/// The texts of the attributes of a conjunction, in order.
pub open spec fn spec_json_attr_items(con: Seq<AttributeView>) -> Seq<Seq<u8>> {
    con.map_values(|a: AttributeView| spec_json_attr(a))
}

/// The text of a policy.
pub open spec fn spec_json_policy(p: PolicyView) -> Seq<u8> {
    J_POLICY_OPEN@ + spec_json_uint(p.timestamp) + J_POLICY_MID@ + spec_json_list(
        spec_json_attr_items(p.con),
        0x5b,
        0x5d,
    ) + J_CLOSE@
}

/// The numbers of a byte array, in order.
pub open spec fn spec_json_byte_items(bytes: Seq<u8>) -> Seq<Seq<u8>> {
    bytes.map_values(|b: u8| spec_json_uint(b as u64))
}

/// The text of a byte array.
pub open spec fn spec_json_byte_array(bytes: Seq<u8>) -> Seq<u8> {
    spec_json_list(spec_json_byte_items(bytes), 0x5b, 0x5d)
}

/// The text of one recipient: the identifier, then the recipient's data.
pub open spec fn spec_json_recipient(r: RecipientView) -> Seq<u8> {
    spec_json_text(r.id) + J_RECIPIENT_OPEN@ + spec_json_policy(r.policy) + J_RECIPIENT_MID@
        + spec_json_byte_array(r.ct) + J_CLOSE@
}

/// The texts of the recipients, in order.
pub open spec fn spec_json_recipient_items(rs: Seq<RecipientView>) -> Seq<Seq<u8>> {
    rs.map_values(|r: RecipientView| spec_json_recipient(r))
}

/// The text of a cipher.
pub open spec fn spec_json_algo(a: Algorithm) -> Seq<u8> {
    (match a {
        Algorithm::Aes128Gcm { iv } => J_AES128GCM@ + spec_json_byte_array(iv@),
        Algorithm::XSalsa20Poly1305 { iv } => J_XSALSA20POLY1305@ + spec_json_byte_array(iv@),
        Algorithm::Aes128Ocb { iv } => J_AES128OCB@ + spec_json_byte_array(iv@),
        Algorithm::Aegis128 { iv } => J_AEGIS128@ + spec_json_byte_array(iv@),
    }) + J_CLOSE2@
}

/// An optional number: a number, or `null`.
pub open spec fn spec_json_opt_uint(n: Option<u64>) -> Seq<u8> {
    match n {
        Some(v) => spec_json_uint(v),
        None => JSON_NULL@,
    }
}

/// The text of a mode.
pub open spec fn spec_json_mode(m: Mode) -> Seq<u8> {
    match m {
        Mode::Streaming { segment_size, size_hint } => J_STREAMING_OPEN@ + spec_json_uint(
            segment_size as u64,
        ) + J_STREAMING_MID@ + spec_json_uint(size_hint.0) + J_COMMA@ + spec_json_opt_uint(
            size_hint.1,
        ) + J_STREAMING_CLOSE@,
        Mode::InMemory { size } => J_INMEMORY_OPEN@ + spec_json_uint(size) + J_CLOSE2@,
    }
}

/// The text of a header, as UTF-8 bytes.
pub open spec fn spec_json(h: HeaderView) -> Seq<u8> {
    J_HEADER_OPEN@ + spec_json_list(spec_json_recipient_items(h.recipients), 0x7b, 0x7d)
        + J_HEADER_ALGO@ + spec_json_algo(h.algo) + J_HEADER_MODE@ + spec_json_mode(h.mode)
        + J_CLOSE@
}

/// The text of a header that leaves its mode out. No writer of this library
/// produces it; a reader takes it for a header in the default mode.
pub open spec fn spec_json_short(h: HeaderView) -> Seq<u8> {
    J_HEADER_OPEN@ + spec_json_list(spec_json_recipient_items(h.recipients), 0x7b, 0x7d)
        + J_HEADER_ALGO@ + spec_json_algo(h.algo) + J_CLOSE@
}

/// The text of a header in one of its two forms: in full, or without the mode.
pub open spec fn spec_json_form(h: HeaderView, full: bool) -> Seq<u8> {
    if full {
        spec_json(h)
    } else {
        spec_json_short(h)
    }
}

/// Whether `bytes` are a text of the well-formed header `h`: its text, or, for a
/// header in the default mode, its text without the mode.
pub open spec fn spec_json_decodes(bytes: Seq<u8>, h: HeaderView) -> bool {
    &&& spec_header_wf(h)
    &&& spec_json(h) == bytes || (h.mode == spec_default_mode() && spec_json_short(h) == bytes)
}

/// Writes an optional text.
fn write_json_opt_text(out: &mut Vec<u8>, t: &Option<String>)
    ensures
        final(out)@ == old(out)@ + spec_json_opt_text(opt_text_view(*t)),
{
    match t {
        Some(v) => {
            write_json_text(out, v.as_str());
        },
        None => {
            extend_bytes(out, JSON_NULL.as_slice());
        },
    }
}

/// Writes an attribute.
fn write_json_attr(out: &mut Vec<u8>, a: &Attribute)
    ensures
        final(out)@ == old(out)@ + spec_json_attr(a@),
{
    let ghost before = out@;
    extend_bytes(out, J_ATTR_OPEN.as_slice());
    write_json_text(out, a.atype.as_str());
    extend_bytes(out, J_ATTR_MID.as_slice());
    write_json_opt_text(out, &a.value);
    extend_bytes(out, J_CLOSE.as_slice());
    assert(opt_text_view(a.value) == a@.value);
    assert(out@ =~= before + spec_json_attr(a@));
}

/// Joining the first `k + 1` terminated items is joining the first `k` and
/// adding the next item with its terminator.
proof fn lemma_terminated_take(items: Seq<Seq<u8>>, close: u8, k: int)
    requires
        0 <= k < items.len(),
    ensures
        spec_concat(spec_terminated(items, close).take(k + 1)) == spec_concat(
            spec_terminated(items, close).take(k),
        ) + items[k] + seq![
            if k < items.len() - 1 {
                0x2cu8
            } else {
                close
            },
        ],
{
    let parts = spec_terminated(items, close);
    lemma_concat_take(parts, k);
    let sep = if k < items.len() - 1 {
        0x2cu8
    } else {
        close
    };
    assert(parts[k] =~= items[k] + seq![sep]);
    assert(spec_concat(parts.take(k)) + parts[k] =~= spec_concat(parts.take(k)) + items[k]
        + seq![sep]);
}

/// Writes a conjunction.
fn write_json_con(out: &mut Vec<u8>, con: &Vec<Attribute>)
    ensures
        final(out)@ == old(out)@ + spec_json_list(spec_json_attr_items(con_view(con@)), 0x5b, 0x5d),
{
    let ghost before = out@;
    let ghost items = spec_json_attr_items(con_view(con@));
    let ghost parts = spec_terminated(items, 0x5d);
    out.push(0x5b);
    let ghost start = out@;
    let n = con.len();
    if n == 0 {
        out.push(0x5d);
        assert(out@ =~= before + spec_json_list(items, 0x5b, 0x5d));
    } else {
        assert(parts.take(0) =~= Seq::<Seq<u8>>::empty());
        let mut i: usize = 0;
        while i < n
            invariant
                i <= n,
                n == con@.len(),
                items == spec_json_attr_items(con_view(con@)),
                parts == spec_terminated(items, 0x5d),
                out@ == start + spec_concat(parts.take(i as int)),
            decreases n - i,
        {
            proof {
                lemma_terminated_take(items, 0x5d, i as int);
            }
            write_json_attr(out, &con[i]);
            out.push(
                if i < n - 1 {
                    0x2c
                } else {
                    0x5d
                },
            );
            i += 1;
        }
        assert(parts.take(n as int) =~= parts);
        assert(out@ =~= before + spec_json_list(items, 0x5b, 0x5d));
    }
}

/// Writes a policy.
fn write_json_policy(out: &mut Vec<u8>, p: &HiddenPolicy)
    ensures
        final(out)@ == old(out)@ + spec_json_policy(p@),
{
    let ghost before = out@;
    extend_bytes(out, J_POLICY_OPEN.as_slice());
    write_json_uint(out, p.timestamp);
    extend_bytes(out, J_POLICY_MID.as_slice());
    write_json_con(out, &p.con);
    extend_bytes(out, J_CLOSE.as_slice());
    assert(out@ =~= before + spec_json_policy(p@));
}

/// Writes a byte array.
fn write_json_byte_array(out: &mut Vec<u8>, bytes: &[u8])
    ensures
        final(out)@ == old(out)@ + spec_json_byte_array(bytes@),
{
    let ghost before = out@;
    let ghost items = spec_json_byte_items(bytes@);
    let ghost parts = spec_terminated(items, 0x5d);
    out.push(0x5b);
    let ghost start = out@;
    let n = bytes.len();
    if n == 0 {
        out.push(0x5d);
        assert(out@ =~= before + spec_json_byte_array(bytes@));
    } else {
        assert(parts.take(0) =~= Seq::<Seq<u8>>::empty());
        let mut i: usize = 0;
        while i < n
            invariant
                i <= n,
                n == bytes@.len(),
                items == spec_json_byte_items(bytes@),
                parts == spec_terminated(items, 0x5d),
                out@ == start + spec_concat(parts.take(i as int)),
            decreases n - i,
        {
            proof {
                lemma_terminated_take(items, 0x5d, i as int);
            }
            write_json_uint(out, bytes[i] as u64);
            out.push(
                if i < n - 1 {
                    0x2c
                } else {
                    0x5d
                },
            );
            i += 1;
        }
        assert(parts.take(n as int) =~= parts);
        assert(out@ =~= before + spec_json_byte_array(bytes@));
    }
}

/// Writes one recipient.
fn write_json_recipient(out: &mut Vec<u8>, id: &String, r: &RecipientHeader)
    ensures
        final(out)@ == old(out)@ + spec_json_recipient(recipient_view((*id, *r))),
{
    let ghost before = out@;
    write_json_text(out, id.as_str());
    extend_bytes(out, J_RECIPIENT_OPEN.as_slice());
    write_json_policy(out, &r.policy);
    extend_bytes(out, J_RECIPIENT_MID.as_slice());
    write_json_byte_array(out, r.ct.as_slice());
    extend_bytes(out, J_CLOSE.as_slice());
    assert(out@ =~= before + spec_json_recipient(recipient_view((*id, *r))));
}

/// Writes a cipher.
fn write_json_algo(out: &mut Vec<u8>, a: &Algorithm)
    ensures
        final(out)@ == old(out)@ + spec_json_algo(*a),
{
    let ghost before = out@;
    match a {
        Algorithm::Aes128Gcm { iv } => {
            extend_bytes(out, J_AES128GCM.as_slice());
            write_json_byte_array(out, iv.as_slice());
        },
        Algorithm::XSalsa20Poly1305 { iv } => {
            extend_bytes(out, J_XSALSA20POLY1305.as_slice());
            write_json_byte_array(out, iv.as_slice());
        },
        Algorithm::Aes128Ocb { iv } => {
            extend_bytes(out, J_AES128OCB.as_slice());
            write_json_byte_array(out, iv.as_slice());
        },
        Algorithm::Aegis128 { iv } => {
            extend_bytes(out, J_AEGIS128.as_slice());
            write_json_byte_array(out, iv.as_slice());
        },
    }
    extend_bytes(out, J_CLOSE2.as_slice());
    assert(out@ =~= before + spec_json_algo(*a));
}

/// Writes a mode.
fn write_json_mode(out: &mut Vec<u8>, m: &Mode)
    ensures
        final(out)@ == old(out)@ + spec_json_mode(*m),
{
    let ghost before = out@;
    match m {
        Mode::Streaming { segment_size, size_hint } => {
            extend_bytes(out, J_STREAMING_OPEN.as_slice());
            write_json_uint(out, *segment_size as u64);
            extend_bytes(out, J_STREAMING_MID.as_slice());
            write_json_uint(out, size_hint.0);
            extend_bytes(out, J_COMMA.as_slice());
            match size_hint.1 {
                Some(v) => {
                    write_json_uint(out, v);
                },
                None => {
                    extend_bytes(out, JSON_NULL.as_slice());
                },
            }
            extend_bytes(out, J_STREAMING_CLOSE.as_slice());
        },
        Mode::InMemory { size } => {
            extend_bytes(out, J_INMEMORY_OPEN.as_slice());
            write_json_uint(out, *size);
            extend_bytes(out, J_CLOSE2.as_slice());
        },
    }
    assert(out@ =~= before + spec_json_mode(*m));
}

/// Writes the recipients of a header.
fn write_json_recipients(out: &mut Vec<u8>, h: &Header)
    ensures
        final(out)@ == old(out)@ + spec_json_list(
            spec_json_recipient_items(h@.recipients),
            0x7b,
            0x7d,
        ),
{
    let ghost before = out@;
    let ghost items = spec_json_recipient_items(recipients_view(h.policies@));
    let ghost parts = spec_terminated(items, 0x7d);
    out.push(0x7b);
    let ghost start = out@;
    let n = h.policies.len();
    if n == 0 {
        out.push(0x7d);
        assert(out@ =~= before + spec_json_list(items, 0x7b, 0x7d));
    } else {
        assert(parts.take(0) =~= Seq::<Seq<u8>>::empty());
        let mut i: usize = 0;
        while i < n
            invariant
                i <= n,
                n == h.policies@.len(),
                items == spec_json_recipient_items(recipients_view(h.policies@)),
                parts == spec_terminated(items, 0x7d),
                out@ == start + spec_concat(parts.take(i as int)),
            decreases n - i,
        {
            proof {
                lemma_terminated_take(items, 0x7d, i as int);
            }
            write_json_recipient(out, &h.policies[i].0, &h.policies[i].1);
            out.push(
                if i < n - 1 {
                    0x2c
                } else {
                    0x7d
                },
            );
            i += 1;
        }
        assert(parts.take(n as int) =~= parts);
        assert(out@ =~= before + spec_json_list(items, 0x7b, 0x7d));
    }
}

/// Writes a header.
fn write_json_header(out: &mut Vec<u8>, h: &Header)
    ensures
        final(out)@ == old(out)@ + spec_json(h@),
{
    let ghost before = out@;
    extend_bytes(out, J_HEADER_OPEN.as_slice());
    write_json_recipients(out, h);
    extend_bytes(out, J_HEADER_ALGO.as_slice());
    write_json_algo(out, &h.algo);
    extend_bytes(out, J_HEADER_MODE.as_slice());
    write_json_mode(out, &h.mode);
    extend_bytes(out, J_CLOSE.as_slice());
    assert(out@ =~= before + spec_json(h@));
}

/// Writes a header without its mode.
fn write_json_header_short(out: &mut Vec<u8>, h: &Header)
    ensures
        final(out)@ == old(out)@ + spec_json_short(h@),
{
    let ghost before = out@;
    extend_bytes(out, J_HEADER_OPEN.as_slice());
    write_json_recipients(out, h);
    extend_bytes(out, J_HEADER_ALGO.as_slice());
    write_json_algo(out, &h.algo);
    extend_bytes(out, J_CLOSE.as_slice());
    assert(out@ =~= before + spec_json_short(h@));
}

/// The byte that follows the item `i` of a list of `n` items.
pub open spec fn spec_sep(i: int, n: int, close: u8) -> u8 {
    if i < n - 1 {
        0x2cu8
    } else {
        close
    }
}

/// Where a list stands, each item stands at its offset, followed by its
/// separator.
proof fn lemma_list_item_at(
    input: Seq<u8>,
    pos: int,
    items: Seq<Seq<u8>>,
    open: u8,
    close: u8,
    k: int,
)
    requires
        0 <= k < items.len(),
        prefix_at(input, pos, spec_json_list(items, open, close)),
    ensures
        prefix_at(
            input,
            pos + 1 + spec_concat(spec_terminated(items, close).take(k)).len(),
            items[k],
        ),
        prefix_at(
            input,
            pos + 1 + spec_concat(spec_terminated(items, close).take(k)).len(),
            items[k].push(spec_sep(k, items.len() as int, close)),
        ),
        input[pos + 1 + spec_concat(spec_terminated(items, close).take(k)).len()
            + items[k].len()] == spec_sep(k, items.len() as int, close),
        spec_concat(spec_terminated(items, close).take(k + 1)).len() == spec_concat(
            spec_terminated(items, close).take(k),
        ).len() + items[k].len() + 1,
        k == items.len() - 1 ==> spec_json_list(items, open, close).len() == 1 + spec_concat(
            spec_terminated(items, close).take(k + 1),
        ).len(),
{
    let parts = spec_terminated(items, close);
    let sep = spec_sep(k, items.len() as int, close);
    lemma_prefix_split(input, pos, seq![open], spec_concat(parts));
    lemma_concat_part_at(input, pos + 1, parts, k);
    lemma_terminated_take(items, close, k);
    let at = pos + 1 + spec_concat(parts.take(k)).len();
    assert(parts[k] =~= items[k] + seq![sep]);
    assert(parts[k] =~= items[k].push(sep));
    lemma_prefix_split(input, at, items[k], seq![sep]);
    assert(input.subrange(at + items[k].len(), at + items[k].len() + 1)[0] == input[at
        + items[k].len()]);
    if k == items.len() - 1 {
        assert(parts.take(k + 1) =~= parts);
    }
}

/// Where a list stands, its opening byte stands first, and an empty list closes
/// right behind it.
proof fn lemma_list_open(input: Seq<u8>, pos: int, items: Seq<Seq<u8>>, open: u8, close: u8)
    requires
        prefix_at(input, pos, spec_json_list(items, open, close)),
    ensures
        pos + 1 < input.len(),
        input[pos] == open,
        items.len() == 0 ==> input[pos + 1] == close && spec_json_list(items, open, close).len()
            == 2,
        items.len() > 0 ==> spec_concat(spec_terminated(items, close).take(0)).len() == 0,
{
    let e = spec_json_list(items, open, close);
    assert(input.subrange(pos, pos + e.len())[0] == input[pos]);
    if items.len() == 0 {
        assert(input.subrange(pos, pos + e.len())[1] == input[pos + 1]);
    } else {
        let parts = spec_terminated(items, close);
        assert(parts.take(0) =~= Seq::<Seq<u8>>::empty());
        lemma_concat_take(parts, 0);
        crate::seqs::lemma_concat_prefix(parts, 1);
    }
}

/// A number that is followed by a piece of text is followed by that text's
/// first byte.
proof fn lemma_uint_then(input: Seq<u8>, pos: int, n: u64, next: Seq<u8>)
    requires
        prefix_at(input, pos, spec_json_uint(n)),
        prefix_at(input, pos + spec_json_uint(n).len(), next),
        next.len() >= 1,
    ensures
        prefix_at(input, pos, spec_json_uint_then(n, next[0])),
{
    let d = spec_json_uint(n);
    let at = pos + d.len();
    assert(input.subrange(at, at + next.len())[0] == input[at]);
    assert(input.subrange(pos, at + 1) =~= input.subrange(pos, at).push(input[at]));
}

/// Reads an optional text: `null`, or a string.
fn read_json_opt_text(input: &[u8], pos: usize) -> (res: Option<(Option<String>, usize)>)
    requires
        pos <= input@.len(),
    ensures
        res matches Some((_, next)) ==> pos < next <= input@.len(),
        forall|t: Option<Seq<char>>| #[trigger]
            prefix_at(input@, pos as int, spec_json_opt_text(t)) ==> (res matches Some((o, next))
                && opt_text_view(o) == t && next == pos + spec_json_opt_text(t).len()),
{
    let null = expect_bytes(input, pos, JSON_NULL.as_slice());
    let res = match null {
        Some(next) => Some((None, next)),
        None => match read_json_text(input, pos) {
            Some((s, next)) => Some((Some(s), next)),
            None => None,
        },
    };
    proof {
        assert forall|t: Option<Seq<char>>| #[trigger]
            prefix_at(input@, pos as int, spec_json_opt_text(t)) implies (res matches Some(
            (o, next),
        ) && opt_text_view(o) == t && next == pos + spec_json_opt_text(t).len()) by {
            match t {
                None => {},
                Some(v) => {
                    let e = spec_json_text(v);
                    assert(prefix_at(input@, pos as int, spec_json_text(v)));
                    assert(input@.subrange(pos as int, pos + e.len())[0] == input@[pos as int]);
                    assert(e[0] == 0x22u8);
                    if null is Some {
                        assert(input@.subrange(pos as int, pos + 4)[0] == input@[pos as int]);
                    }
                },
            }
        }
    }
    res
}

/// Reads an attribute. It reads back what [`write_json_attr`] wrote.
fn read_json_attr(input: &[u8], pos: usize) -> (res: Option<(Attribute, usize)>)
    requires
        pos <= input@.len(),
    ensures
        res matches Some((_, next)) ==> pos < next <= input@.len(),
        forall|a: AttributeView| #[trigger]
            prefix_at(input@, pos as int, spec_json_attr(a)) ==> (res matches Some((attr, next))
                && attr@ == a && next == pos + spec_json_attr(a).len()),
{
    let p1 = expect_bytes(input, pos, J_ATTR_OPEN.as_slice());
    let r2 = match p1 {
        Some(p) => read_json_text(input, p),
        None => None,
    };
    let res = match r2 {
        None => None,
        Some((atype, p2)) => match expect_bytes(input, p2, J_ATTR_MID.as_slice()) {
            None => None,
            Some(p3) => match read_json_opt_text(input, p3) {
                None => None,
                Some((value, p4)) => match expect_bytes(input, p4, J_CLOSE.as_slice()) {
                    None => None,
                    Some(p5) => Some((Attribute { atype, value }, p5)),
                },
            },
        },
    };
    proof {
        assert forall|a: AttributeView| #[trigger]
            prefix_at(input@, pos as int, spec_json_attr(a)) implies (res matches Some(
            (attr, next),
        ) && attr@ == a && next == pos + spec_json_attr(a).len()) by {
            let s1 = J_ATTR_OPEN@;
            let s2 = s1 + spec_json_text(a.atype);
            let s3 = s2 + J_ATTR_MID@;
            let s4 = s3 + spec_json_opt_text(a.value);
            lemma_prefix_split(input@, pos as int, s4, J_CLOSE@);
            lemma_prefix_split(input@, pos as int, s3, spec_json_opt_text(a.value));
            lemma_prefix_split(input@, pos as int, s2, J_ATTR_MID@);
            lemma_prefix_split(input@, pos as int, s1, spec_json_text(a.atype));
            assert(prefix_at(input@, pos + s1.len(), spec_json_text(a.atype)));
            assert(prefix_at(input@, pos + s3.len(), spec_json_opt_text(a.value)));
        }
    }
    res
}

/// Reads a conjunction: a list of attributes. It reads back what was written for
/// any conjunction.
fn read_json_con(input: &[u8], pos: usize) -> (res: Option<(Vec<Attribute>, usize)>)
    requires
        pos <= input@.len(),
    ensures
        res matches Some((_, next)) ==> pos < next <= input@.len(),
        forall|con: Seq<AttributeView>| #[trigger]
            prefix_at(input@, pos as int, spec_json_list(spec_json_attr_items(con), 0x5b, 0x5d))
                ==> (res matches Some((v, next)) && con_view(v@) == con && next == pos
                + spec_json_list(spec_json_attr_items(con), 0x5b, 0x5d).len()),
{
    let len = input.len();
    proof {
        assert forall|con: Seq<AttributeView>| #[trigger]
            prefix_at(
                input@,
                pos as int,
                spec_json_list(spec_json_attr_items(con), 0x5b, 0x5d),
            ) implies pos + 1 < len && input@[pos as int] == 0x5b && (con.len() == 0 ==> input@[pos
            + 1] == 0x5d) && (con.len() > 0 ==> input@[pos + 1] == 0x7b) by {
            let items = spec_json_attr_items(con);
            lemma_list_open(input@, pos as int, items, 0x5b, 0x5d);
            if con.len() > 0 {
                lemma_list_item_at(input@, pos as int, items, 0x5b, 0x5d, 0);
                let e = spec_json_attr(con[0]);
                assert(input@.subrange(pos + 1, pos + 1 + e.len())[0] == input@[pos + 1]);
                assert(e[0] == J_ATTR_OPEN@[0]);
            }
        }
    }
    if len - pos < 2 || input[pos] != 0x5b {
        return None;
    }
    let start = pos + 1;
    let mut out: Vec<Attribute> = Vec::new();
    if input[start] == 0x5d {
        proof {
            assert forall|con: Seq<AttributeView>| #[trigger]
                prefix_at(
                    input@,
                    pos as int,
                    spec_json_list(spec_json_attr_items(con), 0x5b, 0x5d),
                ) implies con_view(out@) == con && start + 1 == pos + spec_json_list(
                spec_json_attr_items(con),
                0x5b,
                0x5d,
            ).len() by {
                lemma_list_open(input@, pos as int, spec_json_attr_items(con), 0x5b, 0x5d);
                assert(con_view(out@) =~= con);
            }
        }
        return Some((out, start + 1));
    }
    let mut cur: usize = start;
    proof {
        assert forall|con: Seq<AttributeView>| #[trigger]
            prefix_at(
                input@,
                pos as int,
                spec_json_list(spec_json_attr_items(con), 0x5b, 0x5d),
            ) implies out@.len() < con.len() && cur == start + spec_concat(
            spec_terminated(spec_json_attr_items(con), 0x5d).take(0),
        ).len() && con_view(out@) == con.take(0) by {
            lemma_list_open(input@, pos as int, spec_json_attr_items(con), 0x5b, 0x5d);
            assert(con_view(out@) =~= con.take(0));
        }
    }
    loop
        invariant
            pos < start <= cur <= len,
            start == pos + 1,
            len == input@.len(),
            forall|con: Seq<AttributeView>| #[trigger]
                prefix_at(
                    input@,
                    pos as int,
                    spec_json_list(spec_json_attr_items(con), 0x5b, 0x5d),
                ) ==> out@.len() < con.len() && cur == start + spec_concat(
                    spec_terminated(spec_json_attr_items(con), 0x5d).take(out@.len() as int),
                ).len(),
            forall|con: Seq<AttributeView>| #[trigger]
                prefix_at(
                    input@,
                    pos as int,
                    spec_json_list(spec_json_attr_items(con), 0x5b, 0x5d),
                ) ==> con_view(out@) == con.take(out@.len() as int),
        decreases len - cur,
    {
        let ghost i = out@.len() as int;
        let ghost old_out = out@;
        let r = read_json_attr(input, cur);
        proof {
            assert forall|con: Seq<AttributeView>| #[trigger]
                prefix_at(
                    input@,
                    pos as int,
                    spec_json_list(spec_json_attr_items(con), 0x5b, 0x5d),
                ) implies (r matches Some((attr, next)) && attr@ == con[i] && next < len
                && input@[next as int] == spec_sep(i, con.len() as int, 0x5d) && next + 1 == start
                + spec_concat(spec_terminated(spec_json_attr_items(con), 0x5d).take(i + 1)).len()
                && (i == con.len() - 1 ==> next + 1 == pos + spec_json_list(
                spec_json_attr_items(con),
                0x5b,
                0x5d,
            ).len())) by {
                let items = spec_json_attr_items(con);
                lemma_list_item_at(input@, pos as int, items, 0x5b, 0x5d, i);
                assert(prefix_at(input@, cur as int, spec_json_attr(con[i])));
                crate::seqs::lemma_concat_prefix(spec_terminated(items, 0x5d), i + 1);
                lemma_prefix_split(
                    input@,
                    pos as int,
                    seq![0x5bu8],
                    spec_concat(spec_terminated(items, 0x5d)),
                );
            }
        }
        let (attr, next) = match r {
            None => {
                return None;
            },
            Some(x) => x,
        };
        out.push(attr);
        proof {
            assert forall|con: Seq<AttributeView>| #[trigger]
                prefix_at(
                    input@,
                    pos as int,
                    spec_json_list(spec_json_attr_items(con), 0x5b, 0x5d),
                ) implies con_view(out@) == con.take(i + 1) by {
                assert(con_view(old_out) == con.take(i));
                assert(con_view(out@) =~= con_view(old_out).push(con[i]));
                assert(con.take(i + 1) =~= con.take(i).push(con[i]));
            }
        }
        if next >= len {
            return None;
        }
        let sep = input[next];
        if sep == 0x2c {
            cur = next + 1;
        } else if sep == 0x5d {
            proof {
                assert forall|con: Seq<AttributeView>| #[trigger]
                    prefix_at(
                        input@,
                        pos as int,
                        spec_json_list(spec_json_attr_items(con), 0x5b, 0x5d),
                    ) implies con_view(out@) == con by {
                    assert(con.take(i + 1) =~= con);
                }
            }
            return Some((out, next + 1));
        } else {
            return None;
        }
    }
}

/// Reads a policy. It reads back what [`write_json_policy`] wrote.
fn read_json_policy(input: &[u8], pos: usize) -> (res: Option<(HiddenPolicy, usize)>)
    requires
        pos <= input@.len(),
    ensures
        res matches Some((_, next)) ==> pos < next <= input@.len(),
        forall|p: PolicyView| #[trigger]
            prefix_at(input@, pos as int, spec_json_policy(p)) ==> (res matches Some(
                (policy, next),
            ) && policy@ == p && next == pos + spec_json_policy(p).len()),
{
    let p1 = expect_bytes(input, pos, J_POLICY_OPEN.as_slice());
    let r2 = match p1 {
        Some(p) => read_json_uint(input, p),
        None => None,
    };
    let res = match r2 {
        None => None,
        Some((timestamp, p2)) => match expect_bytes(input, p2, J_POLICY_MID.as_slice()) {
            None => None,
            Some(p3) => match read_json_con(input, p3) {
                None => None,
                Some((con, p4)) => match expect_bytes(input, p4, J_CLOSE.as_slice()) {
                    None => None,
                    Some(p5) => Some((HiddenPolicy { timestamp, con }, p5)),
                },
            },
        },
    };
    proof {
        assert forall|p: PolicyView| #[trigger]
            prefix_at(input@, pos as int, spec_json_policy(p)) implies (res matches Some(
            (policy, next),
        ) && policy@ == p && next == pos + spec_json_policy(p).len()) by {
            let list = spec_json_list(spec_json_attr_items(p.con), 0x5b, 0x5d);
            let s1 = J_POLICY_OPEN@;
            let s2 = s1 + spec_json_uint(p.timestamp);
            let s3 = s2 + J_POLICY_MID@;
            let s4 = s3 + list;
            lemma_prefix_split(input@, pos as int, s4, J_CLOSE@);
            lemma_prefix_split(input@, pos as int, s3, list);
            lemma_prefix_split(input@, pos as int, s2, J_POLICY_MID@);
            lemma_prefix_split(input@, pos as int, s1, spec_json_uint(p.timestamp));
            lemma_uint_then(input@, pos + s1.len(), p.timestamp, J_POLICY_MID@);
            assert(prefix_at(input@, pos + s3.len(), list));
        }
    }
    res
}

/// Reads an array of exactly `N` bytes. It reads back what
/// [`write_json_byte_array`] wrote for `N` bytes.
fn read_json_byte_array<const N: usize>(input: &[u8], pos: usize) -> (res: Option<
    ([u8; N], usize),
>)
    requires
        pos <= input@.len(),
        N >= 1,
    ensures
        res matches Some((_, next)) ==> pos < next <= input@.len(),
        forall|bytes: Seq<u8>| #[trigger]
            prefix_at(input@, pos as int, spec_json_byte_array(bytes)) && bytes.len() == N ==> (
            res matches Some((a, next)) && a@ == bytes && next == pos + spec_json_byte_array(
                bytes,
            ).len()),
{
    let len = input.len();
    proof {
        assert forall|bytes: Seq<u8>| #[trigger]
            prefix_at(input@, pos as int, spec_json_byte_array(bytes)) && bytes.len()
                == N implies pos + 1 < len && input@[pos as int] == 0x5b by {
            lemma_list_open(input@, pos as int, spec_json_byte_items(bytes), 0x5b, 0x5d);
        }
    }
    if len - pos < 2 || input[pos] != 0x5b {
        return None;
    }
    let start = pos + 1;
    let mut out = [0u8; N];
    let mut cur: usize = start;
    let mut i: usize = 0;
    proof {
        assert forall|bytes: Seq<u8>| #[trigger]
            prefix_at(input@, pos as int, spec_json_byte_array(bytes)) && bytes.len()
                == N implies cur == start + spec_concat(
            spec_terminated(spec_json_byte_items(bytes), 0x5d).take(0),
        ).len() && out@.take(0) == bytes.take(0) by {
            lemma_list_open(input@, pos as int, spec_json_byte_items(bytes), 0x5b, 0x5d);
            assert(out@.take(0) =~= bytes.take(0));
        }
    }
    while i < N
        invariant
            i <= N,
            pos < start <= cur <= len,
            start == pos + 1,
            len == input@.len(),
            i > 0 ==> cur > start,
            forall|bytes: Seq<u8>| #[trigger]
                prefix_at(input@, pos as int, spec_json_byte_array(bytes)) && bytes.len() == N
                    ==> cur == start + spec_concat(
                    spec_terminated(spec_json_byte_items(bytes), 0x5d).take(i as int),
                ).len(),
            forall|bytes: Seq<u8>| #[trigger]
                prefix_at(input@, pos as int, spec_json_byte_array(bytes)) && bytes.len() == N
                    ==> out@.take(i as int) == bytes.take(i as int),
        decreases N - i,
    {
        let ghost old_out = out@;
        let r = read_json_uint(input, cur);
        proof {
            assert forall|bytes: Seq<u8>| #[trigger]
                prefix_at(input@, pos as int, spec_json_byte_array(bytes)) && bytes.len()
                    == N implies (r matches Some((v, next)) && v == bytes[i as int] && next < len
                && input@[next as int] == spec_sep(i as int, N as int, 0x5d) && next + 1 == start
                + spec_concat(spec_terminated(spec_json_byte_items(bytes), 0x5d).take(i + 1)).len()
                && (i == N - 1 ==> next + 1 == pos + spec_json_byte_array(bytes).len())) by {
                let items = spec_json_byte_items(bytes);
                lemma_list_item_at(input@, pos as int, items, 0x5b, 0x5d, i as int);
                let sep = spec_sep(i as int, N as int, 0x5d);
                assert(items[i as int].push(sep) == spec_json_uint_then(
                    bytes[i as int] as u64,
                    sep,
                ));
                assert(!spec_is_digit(sep));
                crate::seqs::lemma_concat_prefix(spec_terminated(items, 0x5d), i + 1);
                lemma_prefix_split(
                    input@,
                    pos as int,
                    seq![0x5bu8],
                    spec_concat(spec_terminated(items, 0x5d)),
                );
            }
        }
        let (v, next) = match r {
            None => {
                return None;
            },
            Some(x) => x,
        };
        if v > 255 || next >= len {
            return None;
        }
        let sep = input[next];
        if (i < N - 1 && sep != 0x2c) || (i == N - 1 && sep != 0x5d) {
            return None;
        }
        out[i] = v as u8;
        cur = next + 1;
        proof {
            assert forall|bytes: Seq<u8>| #[trigger]
                prefix_at(input@, pos as int, spec_json_byte_array(bytes)) && bytes.len()
                    == N implies out@.take(i + 1) == bytes.take(i + 1) by {
                assert(old_out.take(i as int) == bytes.take(i as int));
                assert(out@.take(i + 1) =~= old_out.take(i as int).push(bytes[i as int]));
                assert(bytes.take(i + 1) =~= bytes.take(i as int).push(bytes[i as int]));
            }
        }
        i += 1;
    }
    proof {
        assert forall|bytes: Seq<u8>| #[trigger]
            prefix_at(input@, pos as int, spec_json_byte_array(bytes)) && bytes.len()
                == N implies out@ == bytes && cur == pos + spec_json_byte_array(bytes).len() by {
            let items = spec_json_byte_items(bytes);
            lemma_list_item_at(input@, pos as int, items, 0x5b, 0x5d, N - 1);
            assert(out@.take(N as int) =~= out@);
            assert(bytes.take(N as int) =~= bytes);
        }
    }
    Some((out, cur))
}

/// Reads one recipient. It reads back what [`write_json_recipient`] wrote.
fn read_json_recipient(input: &[u8], pos: usize) -> (res: Option<
    ((String, RecipientHeader), usize),
>)
    requires
        pos <= input@.len(),
    ensures
        res matches Some((_, next)) ==> pos < next <= input@.len(),
        forall|r: RecipientView| #[trigger]
            prefix_at(input@, pos as int, spec_json_recipient(r)) && r.ct.len() == 284 ==> (
            res matches Some((entry, next)) && recipient_view(entry) == r && next == pos
                + spec_json_recipient(r).len()),
{
    let r1 = read_json_text(input, pos);
    let r3 = match r1 {
        None => None,
        Some((id, p1)) => match expect_bytes(input, p1, J_RECIPIENT_OPEN.as_slice()) {
            None => None,
            Some(p2) => match read_json_policy(input, p2) {
                None => None,
                Some((policy, p3)) => Some((id, policy, p3)),
            },
        },
    };
    let res = match r3 {
        None => None,
        Some((id, policy, p3)) => match expect_bytes(input, p3, J_RECIPIENT_MID.as_slice()) {
            None => None,
            Some(p4) => match read_json_byte_array::<284>(input, p4) {
                None => None,
                Some((ct, p5)) => match expect_bytes(input, p5, J_CLOSE.as_slice()) {
                    None => None,
                    Some(p6) => Some(((id, RecipientHeader { policy, ct }), p6)),
                },
            },
        },
    };
    proof {
        assert forall|r: RecipientView| #[trigger]
            prefix_at(input@, pos as int, spec_json_recipient(r)) && r.ct.len() == 284 implies (
        res matches Some((entry, next)) && recipient_view(entry) == r && next == pos
            + spec_json_recipient(r).len()) by {
            let s1 = spec_json_text(r.id);
            let s2 = s1 + J_RECIPIENT_OPEN@;
            let s3 = s2 + spec_json_policy(r.policy);
            let s4 = s3 + J_RECIPIENT_MID@;
            let s5 = s4 + spec_json_byte_array(r.ct);
            lemma_prefix_split(input@, pos as int, s5, J_CLOSE@);
            lemma_prefix_split(input@, pos as int, s4, spec_json_byte_array(r.ct));
            lemma_prefix_split(input@, pos as int, s3, J_RECIPIENT_MID@);
            lemma_prefix_split(input@, pos as int, s2, spec_json_policy(r.policy));
            lemma_prefix_split(input@, pos as int, s1, J_RECIPIENT_OPEN@);
            assert(prefix_at(input@, pos as int, spec_json_text(r.id)));
            assert(prefix_at(input@, pos + s2.len(), spec_json_policy(r.policy)));
            assert(prefix_at(input@, pos + s4.len(), spec_json_byte_array(r.ct)));
        }
    }
    res
}

/// Whether every ciphertext has the length that the scheme dictates.
pub open spec fn spec_ct_lengths(rs: Seq<RecipientView>) -> bool {
    forall|i: int| 0 <= i < rs.len() ==> (#[trigger] rs[i]).ct.len() == 284
}

/// Reads the recipients of a header. It reads back what was written for any
/// recipients.
fn read_json_recipients(input: &[u8], pos: usize) -> (res: Option<
    (Vec<(String, RecipientHeader)>, usize),
>)
    requires
        pos <= input@.len(),
    ensures
        res matches Some((_, next)) ==> pos < next <= input@.len(),
        forall|rs: Seq<RecipientView>| #[trigger]
            prefix_at(
                input@,
                pos as int,
                spec_json_list(spec_json_recipient_items(rs), 0x7b, 0x7d),
            ) && spec_ct_lengths(rs) ==> (res matches Some((v, next)) && recipients_view(v@) == rs
                && next == pos + spec_json_list(spec_json_recipient_items(rs), 0x7b, 0x7d).len()),
{
    let len = input.len();
    proof {
        assert forall|rs: Seq<RecipientView>| #[trigger]
            prefix_at(
                input@,
                pos as int,
                spec_json_list(spec_json_recipient_items(rs), 0x7b, 0x7d),
            ) && spec_ct_lengths(rs) implies pos + 1 < len && input@[pos as int] == 0x7b && (
        rs.len() == 0 ==> input@[pos + 1] == 0x7d) && (rs.len() > 0 ==> input@[pos + 1]
            == 0x22) by {
            let items = spec_json_recipient_items(rs);
            lemma_list_open(input@, pos as int, items, 0x7b, 0x7d);
            if rs.len() > 0 {
                lemma_list_item_at(input@, pos as int, items, 0x7b, 0x7d, 0);
                let e = spec_json_recipient(rs[0]);
                assert(input@.subrange(pos + 1, pos + 1 + e.len())[0] == input@[pos + 1]);
                assert(e[0] == 0x22u8);
            }
        }
    }
    if len - pos < 2 || input[pos] != 0x7b {
        return None;
    }
    let start = pos + 1;
    let mut out: Vec<(String, RecipientHeader)> = Vec::new();
    if input[start] == 0x7d {
        proof {
            assert forall|rs: Seq<RecipientView>| #[trigger]
                prefix_at(
                    input@,
                    pos as int,
                    spec_json_list(spec_json_recipient_items(rs), 0x7b, 0x7d),
                ) && spec_ct_lengths(rs) implies recipients_view(out@) == rs && start + 1 == pos
                + spec_json_list(spec_json_recipient_items(rs), 0x7b, 0x7d).len() by {
                lemma_list_open(input@, pos as int, spec_json_recipient_items(rs), 0x7b, 0x7d);
                assert(recipients_view(out@) =~= rs);
            }
        }
        return Some((out, start + 1));
    }
    let mut cur: usize = start;
    proof {
        assert forall|rs: Seq<RecipientView>| #[trigger]
            prefix_at(
                input@,
                pos as int,
                spec_json_list(spec_json_recipient_items(rs), 0x7b, 0x7d),
            ) && spec_ct_lengths(rs) implies out@.len() < rs.len() && cur == start + spec_concat(
            spec_terminated(spec_json_recipient_items(rs), 0x7d).take(0),
        ).len() && recipients_view(out@) == rs.take(0) by {
            lemma_list_open(input@, pos as int, spec_json_recipient_items(rs), 0x7b, 0x7d);
            assert(recipients_view(out@) =~= rs.take(0));
        }
    }
    loop
        invariant
            pos < start <= cur <= len,
            start == pos + 1,
            len == input@.len(),
            forall|rs: Seq<RecipientView>| #[trigger]
                prefix_at(
                    input@,
                    pos as int,
                    spec_json_list(spec_json_recipient_items(rs), 0x7b, 0x7d),
                ) && spec_ct_lengths(rs) ==> out@.len() < rs.len() && cur == start + spec_concat(
                    spec_terminated(spec_json_recipient_items(rs), 0x7d).take(out@.len() as int),
                ).len(),
            forall|rs: Seq<RecipientView>| #[trigger]
                prefix_at(
                    input@,
                    pos as int,
                    spec_json_list(spec_json_recipient_items(rs), 0x7b, 0x7d),
                ) && spec_ct_lengths(rs) ==> recipients_view(out@) == rs.take(out@.len() as int),
        decreases len - cur,
    {
        let ghost i = out@.len() as int;
        let ghost old_out = out@;
        let r = read_json_recipient(input, cur);
        proof {
            assert forall|rs: Seq<RecipientView>| #[trigger]
                prefix_at(
                    input@,
                    pos as int,
                    spec_json_list(spec_json_recipient_items(rs), 0x7b, 0x7d),
                ) && spec_ct_lengths(rs) implies (r matches Some((entry, next)) && recipient_view(
                entry,
            ) == rs[i] && next < len && input@[next as int] == spec_sep(i, rs.len() as int, 0x7d)
                && next + 1 == start + spec_concat(
                spec_terminated(spec_json_recipient_items(rs), 0x7d).take(i + 1),
            ).len() && (i == rs.len() - 1 ==> next + 1 == pos + spec_json_list(
                spec_json_recipient_items(rs),
                0x7b,
                0x7d,
            ).len())) by {
                let items = spec_json_recipient_items(rs);
                lemma_list_item_at(input@, pos as int, items, 0x7b, 0x7d, i);
                assert(prefix_at(input@, cur as int, spec_json_recipient(rs[i])));
                assert(rs[i].ct.len() == 284);
                crate::seqs::lemma_concat_prefix(spec_terminated(items, 0x7d), i + 1);
                lemma_prefix_split(
                    input@,
                    pos as int,
                    seq![0x7bu8],
                    spec_concat(spec_terminated(items, 0x7d)),
                );
            }
        }
        let (entry, next) = match r {
            None => {
                return None;
            },
            Some(x) => x,
        };
        out.push(entry);
        proof {
            assert forall|rs: Seq<RecipientView>| #[trigger]
                prefix_at(
                    input@,
                    pos as int,
                    spec_json_list(spec_json_recipient_items(rs), 0x7b, 0x7d),
                ) && spec_ct_lengths(rs) implies recipients_view(out@) == rs.take(i + 1) by {
                assert(recipients_view(old_out) == rs.take(i));
                assert(recipients_view(out@) =~= recipients_view(old_out).push(rs[i]));
                assert(rs.take(i + 1) =~= rs.take(i).push(rs[i]));
            }
        }
        if next >= len {
            return None;
        }
        let sep = input[next];
        if sep == 0x2c {
            cur = next + 1;
        } else if sep == 0x7d {
            proof {
                assert forall|rs: Seq<RecipientView>| #[trigger]
                    prefix_at(
                        input@,
                        pos as int,
                        spec_json_list(spec_json_recipient_items(rs), 0x7b, 0x7d),
                    ) && spec_ct_lengths(rs) implies recipients_view(out@) == rs by {
                    assert(rs.take(i + 1) =~= rs);
                }
            }
            return Some((out, next + 1));
        } else {
            return None;
        }
    }
}

/// What opens the text of a cipher.
pub open spec fn spec_json_algo_open(a: Algorithm) -> Seq<u8> {
    match a {
        Algorithm::Aes128Gcm { .. } => J_AES128GCM@,
        Algorithm::XSalsa20Poly1305 { .. } => J_XSALSA20POLY1305@,
        Algorithm::Aes128Ocb { .. } => J_AES128OCB@,
        Algorithm::Aegis128 { .. } => J_AEGIS128@,
    }
}

/// At most one cipher's opening stands at a position.
proof fn lemma_json_algo_distinct(input: Seq<u8>, pos: int)
    ensures
        !(prefix_at(input, pos, J_AES128GCM@) && prefix_at(input, pos, J_XSALSA20POLY1305@)),
        !(prefix_at(input, pos, J_AES128GCM@) && prefix_at(input, pos, J_AES128OCB@)),
        !(prefix_at(input, pos, J_AES128GCM@) && prefix_at(input, pos, J_AEGIS128@)),
        !(prefix_at(input, pos, J_XSALSA20POLY1305@) && prefix_at(input, pos, J_AES128OCB@)),
        !(prefix_at(input, pos, J_XSALSA20POLY1305@) && prefix_at(input, pos, J_AEGIS128@)),
        !(prefix_at(input, pos, J_AES128OCB@) && prefix_at(input, pos, J_AEGIS128@)),
{
    if prefix_at(input, pos, J_AES128GCM@) {
        let got = input.subrange(pos, pos + J_AES128GCM@.len());
        assert(got[2] == input[pos + 2]);
        assert(got[4] == input[pos + 4]);
        assert(got[8] == input[pos + 8]);
    }
    if prefix_at(input, pos, J_AES128OCB@) {
        let got = input.subrange(pos, pos + J_AES128OCB@.len());
        assert(got[2] == input[pos + 2]);
        assert(got[4] == input[pos + 4]);
        assert(got[8] == input[pos + 8]);
    }
    if prefix_at(input, pos, J_XSALSA20POLY1305@) {
        let got = input.subrange(pos, pos + J_XSALSA20POLY1305@.len());
        assert(got[2] == input[pos + 2]);
    }
    if prefix_at(input, pos, J_AEGIS128@) {
        let got = input.subrange(pos, pos + J_AEGIS128@.len());
        assert(got[2] == input[pos + 2]);
        assert(got[4] == input[pos + 4]);
    }
}

/// Reads the initialization vector of a cipher and what closes the cipher.
fn read_json_iv<const N: usize>(input: &[u8], pos: usize) -> (res: Option<([u8; N], usize)>)
    requires
        pos <= input@.len(),
        N >= 1,
    ensures
        res matches Some((_, next)) ==> pos < next <= input@.len(),
        forall|iv: Seq<u8>| #[trigger]
            prefix_at(input@, pos as int, spec_json_byte_array(iv) + J_CLOSE2@) && iv.len() == N
                ==> (res matches Some((a, next)) && a@ == iv && next == pos + spec_json_byte_array(
                iv,
            ).len() + 2),
{
    let res = match read_json_byte_array::<N>(input, pos) {
        None => None,
        Some((iv, p1)) => match expect_bytes(input, p1, J_CLOSE2.as_slice()) {
            None => None,
            Some(p2) => Some((iv, p2)),
        },
    };
    proof {
        assert forall|iv: Seq<u8>| #[trigger]
            prefix_at(input@, pos as int, spec_json_byte_array(iv) + J_CLOSE2@) && iv.len()
                == N implies (res matches Some((a, next)) && a@ == iv && next == pos
            + spec_json_byte_array(iv).len() + 2) by {
            lemma_prefix_split(input@, pos as int, spec_json_byte_array(iv), J_CLOSE2@);
        }
    }
    res
}

/// Reads a cipher. An unknown variant name is refused.
fn read_json_algo(input: &[u8], pos: usize) -> (res: Option<(Algorithm, usize)>)
    requires
        pos <= input@.len(),
    ensures
        res matches Some((_, next)) ==> pos < next <= input@.len(),
        forall|a: Algorithm| #[trigger]
            prefix_at(input@, pos as int, spec_json_algo(a)) ==> (res matches Some((algo, next))
                && algo == a && next == pos + spec_json_algo(a).len()),
{
    let gcm = expect_bytes(input, pos, J_AES128GCM.as_slice());
    let salsa = expect_bytes(input, pos, J_XSALSA20POLY1305.as_slice());
    let ocb = expect_bytes(input, pos, J_AES128OCB.as_slice());
    let aegis = expect_bytes(input, pos, J_AEGIS128.as_slice());
    let res = if let Some(q) = gcm {
        match read_json_iv::<16>(input, q) {
            Some((iv, next)) => Some((Algorithm::Aes128Gcm { iv }, next)),
            None => None,
        }
    } else if let Some(q) = salsa {
        match read_json_iv::<24>(input, q) {
            Some((iv, next)) => Some((Algorithm::XSalsa20Poly1305 { iv }, next)),
            None => None,
        }
    } else if let Some(q) = ocb {
        match read_json_iv::<12>(input, q) {
            Some((iv, next)) => Some((Algorithm::Aes128Ocb { iv }, next)),
            None => None,
        }
    } else if let Some(q) = aegis {
        match read_json_iv::<16>(input, q) {
            Some((iv, next)) => Some((Algorithm::Aegis128 { iv }, next)),
            None => None,
        }
    } else {
        None
    };
    proof {
        lemma_json_algo_distinct(input@, pos as int);
        assert forall|a: Algorithm| #[trigger]
            prefix_at(input@, pos as int, spec_json_algo(a)) implies (res matches Some(
            (algo, next),
        ) && algo == a && next == pos + spec_json_algo(a).len()) by {
            let open = spec_json_algo_open(a);
            let iv = crate::metadata::ser::spec_algo_iv(a);
            let body = spec_json_byte_array(iv) + J_CLOSE2@;
            assert(spec_json_algo(a) =~= open + body);
            lemma_prefix_split(input@, pos as int, open, body);
            assert(prefix_at(input@, pos + open.len(), body));
            match a {
                Algorithm::Aes128Gcm { iv } => {
                    let got = res->Some_0.0->Aes128Gcm_iv;
                    assert(got@ == iv@);
                    assert(got =~= iv);
                },
                Algorithm::XSalsa20Poly1305 { iv } => {
                    let got = res->Some_0.0->XSalsa20Poly1305_iv;
                    assert(got@ == iv@);
                    assert(got =~= iv);
                },
                Algorithm::Aes128Ocb { iv } => {
                    let got = res->Some_0.0->Aes128Ocb_iv;
                    assert(got@ == iv@);
                    assert(got =~= iv);
                },
                Algorithm::Aegis128 { iv } => {
                    let got = res->Some_0.0->Aegis128_iv;
                    assert(got@ == iv@);
                    assert(got =~= iv);
                },
            }
        }
    }
    res
}

/// What follows the opening of the streaming mode.
pub open spec fn spec_json_streaming_body(segment_size: u32, lo: u64, hi: Option<u64>) -> Seq<u8> {
    spec_json_uint(segment_size as u64) + J_STREAMING_MID@ + spec_json_uint(lo) + J_COMMA@
        + spec_json_opt_uint(hi) + J_STREAMING_CLOSE@
}

/// Reads what follows the opening of the streaming mode.
fn read_json_streaming_body(input: &[u8], pos: usize) -> (res: Option<(Mode, usize)>)
    requires
        pos <= input@.len(),
    ensures
        res matches Some((_, next)) ==> pos < next <= input@.len(),
        forall|segment_size: u32, lo: u64, hi: Option<u64>| #[trigger]
            prefix_at(input@, pos as int, spec_json_streaming_body(segment_size, lo, hi)) ==> (
            res matches Some((mode, next)) && mode == (Mode::Streaming {
                segment_size,
                size_hint: (lo, hi),
            }) && next == pos + spec_json_streaming_body(segment_size, lo, hi).len()),
{
    let r1 = read_json_uint(input, pos);
    let r3 = match r1 {
        None => None,
        Some((seg, p1)) => match expect_bytes(input, p1, J_STREAMING_MID.as_slice()) {
            None => None,
            Some(p2) => match read_json_uint(input, p2) {
                None => None,
                Some((lo, p3)) => match expect_bytes(input, p3, J_COMMA.as_slice()) {
                    None => None,
                    Some(p4) => Some((seg, lo, p4)),
                },
            },
        },
    };
    let r5 = match r3 {
        None => None,
        Some((seg, lo, p4)) => {
            let null = expect_bytes(input, p4, JSON_NULL.as_slice());
            match null {
                Some(p5) => Some((seg, lo, None, p5)),
                None => match read_json_uint(input, p4) {
                    None => None,
                    Some((hi, p5)) => Some((seg, lo, Some(hi), p5)),
                },
            }
        },
    };
    let res = match r5 {
        None => None,
        Some((seg, lo, hi, p5)) => match expect_bytes(input, p5, J_STREAMING_CLOSE.as_slice()) {
            None => None,
            Some(p6) => if seg <= 0xFFFF_FFFF {
                Some((Mode::Streaming { segment_size: seg as u32, size_hint: (lo, hi) }, p6))
            } else {
                None
            },
        },
    };
    proof {
        assert forall|segment_size: u32, lo: u64, hi: Option<u64>| #[trigger]
            prefix_at(input@, pos as int, spec_json_streaming_body(segment_size, lo, hi)) implies (
        res matches Some((mode, next)) && mode == (Mode::Streaming {
            segment_size,
            size_hint: (lo, hi),
        }) && next == pos + spec_json_streaming_body(segment_size, lo, hi).len()) by {
            let s1 = spec_json_uint(segment_size as u64);
            let s2 = s1 + J_STREAMING_MID@;
            let s3 = s2 + spec_json_uint(lo);
            let s4 = s3 + J_COMMA@;
            let s5 = s4 + spec_json_opt_uint(hi);
            lemma_prefix_split(input@, pos as int, s5, J_STREAMING_CLOSE@);
            lemma_prefix_split(input@, pos as int, s4, spec_json_opt_uint(hi));
            lemma_prefix_split(input@, pos as int, s3, J_COMMA@);
            lemma_prefix_split(input@, pos as int, s2, spec_json_uint(lo));
            lemma_prefix_split(input@, pos as int, s1, J_STREAMING_MID@);
            lemma_uint_then(input@, pos as int, segment_size as u64, J_STREAMING_MID@);
            lemma_uint_then(input@, pos + s2.len(), lo, J_COMMA@);
            let at = pos + s4.len();
            match hi {
                None => {},
                Some(v) => {
                    lemma_uint_then(input@, at, v, J_STREAMING_CLOSE@);
                    crate::json::lemma_digits(v as nat);
                    let d = spec_json_uint(v);
                    assert(input@.subrange(at, at + d.len())[0] == input@[at]);
                    assert(spec_is_digit(d[0]));
                    if prefix_at(input@, at, JSON_NULL@) {
                        assert(input@.subrange(at, at + 4)[0] == input@[at]);
                    }
                },
            }
        }
    }
    res
}

/// Reads what follows the opening of the in-memory mode.
fn read_json_inmemory_body(input: &[u8], pos: usize) -> (res: Option<(Mode, usize)>)
    requires
        pos <= input@.len(),
    ensures
        res matches Some((_, next)) ==> pos < next <= input@.len(),
        forall|size: u64| #[trigger]
            prefix_at(input@, pos as int, spec_json_uint(size) + J_CLOSE2@) ==> (res matches Some(
                (mode, next),
            ) && mode == (Mode::InMemory { size }) && next == pos + spec_json_uint(size).len() + 2),
{
    let res = match read_json_uint(input, pos) {
        None => None,
        Some((size, p1)) => match expect_bytes(input, p1, J_CLOSE2.as_slice()) {
            None => None,
            Some(p2) => Some((Mode::InMemory { size }, p2)),
        },
    };
    proof {
        assert forall|size: u64| #[trigger]
            prefix_at(input@, pos as int, spec_json_uint(size) + J_CLOSE2@) implies (
        res matches Some((mode, next)) && mode == (Mode::InMemory { size }) && next == pos
            + spec_json_uint(size).len() + 2) by {
            lemma_prefix_split(input@, pos as int, spec_json_uint(size), J_CLOSE2@);
            lemma_uint_then(input@, pos as int, size, J_CLOSE2@);
        }
    }
    res
}

/// Reads a mode. An unknown variant name is refused.
fn read_json_mode(input: &[u8], pos: usize) -> (res: Option<(Mode, usize)>)
    requires
        pos <= input@.len(),
    ensures
        res matches Some((_, next)) ==> pos < next <= input@.len(),
        forall|m: Mode| #[trigger]
            prefix_at(input@, pos as int, spec_json_mode(m)) ==> (res matches Some((mode, next))
                && mode == m && next == pos + spec_json_mode(m).len()),
{
    let streaming = expect_bytes(input, pos, J_STREAMING_OPEN.as_slice());
    let inmemory = expect_bytes(input, pos, J_INMEMORY_OPEN.as_slice());
    let res = if let Some(q) = streaming {
        read_json_streaming_body(input, q)
    } else if let Some(q) = inmemory {
        read_json_inmemory_body(input, q)
    } else {
        None
    };
    proof {
        assert forall|m: Mode| #[trigger] prefix_at(input@, pos as int, spec_json_mode(m)) implies (
        res matches Some((mode, next)) && mode == m && next == pos + spec_json_mode(m).len()) by {
            match m {
                Mode::Streaming { segment_size, size_hint } => {
                    let body = spec_json_streaming_body(segment_size, size_hint.0, size_hint.1);
                    assert(spec_json_mode(m) =~= J_STREAMING_OPEN@ + body);
                    lemma_prefix_split(input@, pos as int, J_STREAMING_OPEN@, body);
                    assert(prefix_at(input@, pos + J_STREAMING_OPEN@.len(), body));
                },
                Mode::InMemory { size } => {
                    let body = spec_json_uint(size) + J_CLOSE2@;
                    assert(spec_json_mode(m) =~= J_INMEMORY_OPEN@ + body);
                    lemma_prefix_split(input@, pos as int, J_INMEMORY_OPEN@, body);
                    assert(prefix_at(input@, pos + J_INMEMORY_OPEN@.len(), body));
                    let got = input@.subrange(pos as int, pos + J_INMEMORY_OPEN@.len());
                    assert(got[2] == input@[pos + 2]);
                    if streaming is Some {
                        let other = input@.subrange(pos as int, pos + J_STREAMING_OPEN@.len());
                        assert(other[2] == input@[pos + 2]);
                    }
                },
            }
        }
    }
    res
}

/// Reads a header, and reports whether it was written in full. It reads back
/// what [`write_json_header`] wrote, and the same without the mode as a header
/// in the default mode.
fn read_json_header(input: &[u8], pos: usize) -> (res: Option<(Header, bool, usize)>)
    requires
        pos <= input@.len(),
    ensures
        res matches Some((_, _, next)) ==> pos < next <= input@.len(),
        res matches Some((header, full, _)) ==> full || header.mode == spec_default_mode(),
        forall|h: HeaderView, f: bool| #[trigger]
            prefix_at(input@, pos as int, spec_json_form(h, f)) && spec_ct_lengths(h.recipients)
                && (f || h.mode == spec_default_mode()) ==> (res matches Some(
                (header, full, next),
            ) && header@ == h && full == f && next == pos + spec_json_form(h, f).len()),
{
    let p1 = expect_bytes(input, pos, J_HEADER_OPEN.as_slice());
    let r2 = match p1 {
        Some(p) => read_json_recipients(input, p),
        None => None,
    };
    let r4 = match r2 {
        None => None,
        Some((policies, p2)) => match expect_bytes(input, p2, J_HEADER_ALGO.as_slice()) {
            None => None,
            Some(p3) => match read_json_algo(input, p3) {
                None => None,
                Some((algo, p4)) => Some((policies, algo, p4)),
            },
        },
    };
    let res = match r4 {
        None => None,
        Some((policies, algo, p4)) => match expect_bytes(input, p4, J_CLOSE.as_slice()) {
            Some(p5) => Some((Header { policies, algo, mode: Mode::default() }, false, p5)),
            None => match expect_bytes(input, p4, J_HEADER_MODE.as_slice()) {
                None => None,
                Some(p5) => match read_json_mode(input, p5) {
                    None => None,
                    Some((mode, p6)) => match expect_bytes(input, p6, J_CLOSE.as_slice()) {
                        None => None,
                        Some(p7) => Some((Header { policies, algo, mode }, true, p7)),
                    },
                },
            },
        },
    };
    proof {
        assert forall|h: HeaderView, f: bool| #[trigger]
            prefix_at(input@, pos as int, spec_json_form(h, f)) && spec_ct_lengths(h.recipients)
                && (f || h.mode == spec_default_mode()) implies (res matches Some(
            (header, full, next),
        ) && header@ == h && full == f && next == pos + spec_json_form(h, f).len()) by {
            let list = spec_json_list(spec_json_recipient_items(h.recipients), 0x7b, 0x7d);
            let s1 = J_HEADER_OPEN@;
            let s2 = s1 + list;
            let s3 = s2 + J_HEADER_ALGO@;
            let s4 = s3 + spec_json_algo(h.algo);
            if f {
                let s5 = s4 + J_HEADER_MODE@;
                let s6 = s5 + spec_json_mode(h.mode);
                lemma_prefix_split(input@, pos as int, s6, J_CLOSE@);
                lemma_prefix_split(input@, pos as int, s5, spec_json_mode(h.mode));
                lemma_prefix_split(input@, pos as int, s4, J_HEADER_MODE@);
                lemma_prefix_split(input@, pos as int, s3, spec_json_algo(h.algo));
                lemma_prefix_split(input@, pos as int, s2, J_HEADER_ALGO@);
                lemma_prefix_split(input@, pos as int, s1, list);
                assert(prefix_at(input@, pos + s1.len(), list));
                assert(prefix_at(input@, pos + s3.len(), spec_json_algo(h.algo)));
                assert(prefix_at(input@, pos + s4.len(), J_HEADER_MODE@));
                assert(input@.subrange(pos + s4.len(), pos + s4.len() + 8)[0] == input@[pos
                    + s4.len()]);
                assert(J_HEADER_MODE@[0] == 0x2c);
                if prefix_at(input@, pos + s4.len(), J_CLOSE@) {
                    assert(input@.subrange(pos + s4.len(), pos + s4.len() + 1)[0] == input@[pos
                        + s4.len()]);
                    assert(J_CLOSE@[0] == 0x7d);
                }
                assert(prefix_at(input@, pos + s5.len(), spec_json_mode(h.mode)));
            } else {
                lemma_prefix_split(input@, pos as int, s4, J_CLOSE@);
                lemma_prefix_split(input@, pos as int, s3, spec_json_algo(h.algo));
                lemma_prefix_split(input@, pos as int, s2, J_HEADER_ALGO@);
                lemma_prefix_split(input@, pos as int, s1, list);
                assert(prefix_at(input@, pos + s1.len(), list));
                assert(prefix_at(input@, pos + s3.len(), spec_json_algo(h.algo)));
                assert(prefix_at(input@, pos + s4.len(), J_CLOSE@));
            }
        }
    }
    res
}

impl Header {
    /// Writes the header as JSON text. The UTF-8 bytes of the text are those of
    /// [`spec_json`]. It never fails.
    pub fn to_json_string(&self) -> (res: Result<String, Error>)
        ensures
            res matches Ok(text) && encode_utf8(text@) == spec_json(self@),
    {
        let mut buf: Vec<u8> = Vec::new();
        write_json_header(&mut buf, self);
        assert(buf@ =~= spec_json(self@));
        proof {
            crate::metadata::utf8::lemma_json_valid(self@);
            vstd::utf8::decode_utf8_encode_utf8(spec_json(self@));
        }
        match string_from_utf8(buf) {
            Some(text) => Ok(text),
            None => Err(Error::FormatViolation),
        }
    }

    /// Reads a header from JSON text. It succeeds exactly when the text is that
    /// of a well-formed header, in full or without the `mode` field, and then
    /// returns that header, in the default mode where the field is missing; no
    /// text is that of two headers. Everything else fails with
    /// `FormatViolation`: white space between the tokens, fields in another
    /// order, a field that is not known, and whatever makes a header ill formed.
    pub fn from_json_string(text: &str) -> (res: Result<Header, Error>)
        ensures
            match res {
                Ok(header) => spec_json_decodes(encode_utf8(text@), header@),
                Err(e) => e == Error::FormatViolation && forall|h: HeaderView|
                    !#[trigger] spec_json_decodes(encode_utf8(text@), h),
            },
            forall|h: HeaderView| #[trigger]
                spec_json_decodes(encode_utf8(text@), h) ==> (res matches Ok(header) && header@
                    == h),
    {
        let bytes = text.as_bytes();
        let parsed = read_json_header(bytes, 0);
        proof {
            assert forall|h: HeaderView| #[trigger]
                spec_json_decodes(encode_utf8(text@), h) implies (parsed matches Some(
                (header, full, next),
            ) && header@ == h && next == bytes@.len() && spec_json_form(h, full) == bytes@) by {
                assert(bytes@.subrange(0, bytes@.len() as int) =~= bytes@);
                if spec_json(h) == bytes@ {
                    assert(prefix_at(bytes@, 0, spec_json_form(h, true)));
                } else {
                    assert(prefix_at(bytes@, 0, spec_json_form(h, false)));
                }
            }
        }
        match parsed {
            None => Err(Error::FormatViolation),
            Some((header, full, next)) => {
                if next != bytes.len() || !header_is_wf(&header) {
                    return Err(Error::FormatViolation);
                }
                let mut buf: Vec<u8> = Vec::new();
                if full {
                    write_json_header(&mut buf, &header);
                } else {
                    write_json_header_short(&mut buf, &header);
                }
                assert(buf@ =~= spec_json_form(header@, full));
                if !bytes_eq(buf.as_slice(), bytes) {
                    return Err(Error::FormatViolation);
                }
                Ok(header)
            },
        }
    }
}

} // verus!

//! The JSON text of a header is UTF-8.

use crate::identity::{AttributeView, PolicyView};
use crate::json::{
    lemma_digits,
    spec_all_digits,
    spec_digits,
    spec_escape_byte,
    spec_escape_parts,
    spec_json_str,
    spec_json_text,
    spec_json_uint,
    JSON_NULL,
};
use crate::metadata::json::{
    spec_json,
    spec_json_algo,
    spec_json_attr,
    spec_json_attr_items,
    spec_json_byte_array,
    spec_json_byte_items,
    spec_json_list,
    spec_json_mode,
    spec_json_opt_text,
    spec_json_opt_uint,
    spec_json_policy,
    spec_json_recipient,
    spec_json_recipient_items,
    spec_terminated,
    J_AEGIS128,
    J_AES128GCM,
    J_AES128OCB,
    J_ATTR_MID,
    J_ATTR_OPEN,
    J_CLOSE,
    J_CLOSE2,
    J_COMMA,
    J_HEADER_ALGO,
    J_HEADER_MODE,
    J_HEADER_OPEN,
    J_INMEMORY_OPEN,
    J_POLICY_MID,
    J_POLICY_OPEN,
    J_RECIPIENT_MID,
    J_RECIPIENT_OPEN,
    J_STREAMING_CLOSE,
    J_STREAMING_MID,
    J_STREAMING_OPEN,
    J_XSALSA20POLY1305,
};
use crate::metadata::{Algorithm, HeaderView, Mode, RecipientView};
use crate::seqs::spec_concat;
use vstd::prelude::*;
use vstd::utf8::{
    encode_scalar,
    encode_utf8,
    encode_utf8_valid_utf8,
    has_width_1_encoding,
    has_width_2_encoding,
    has_width_3_encoding,
    is_ascii_chars,
    is_ascii_chars_encode_utf8,
    valid_utf8,
    valid_utf8_concat,
};

verus! {

/// Whether every byte is below 128.
pub open spec fn spec_is_ascii(bytes: Seq<u8>) -> bool {
    forall|i: int| 0 <= i < bytes.len() ==> #[trigger] bytes[i] < 0x80
}

/// Bytes below 128 are UTF-8.
pub proof fn lemma_ascii_valid(bytes: Seq<u8>)
    requires
        spec_is_ascii(bytes),
    ensures
        valid_utf8(bytes),
{
    let chars = Seq::new(bytes.len(), |i: int| bytes[i] as char);
    assert(is_ascii_chars(chars)) by {
        assert forall|i: int| 0 <= i < chars.len() implies '\0' <= #[trigger] chars[i]
            <= '\u{7f}' by {
            assert(bytes[i] < 0x80);
        }
    }
    is_ascii_chars_encode_utf8(chars);
    assert(encode_utf8(chars) =~= bytes) by {
        assert forall|i: int| 0 <= i < bytes.len() implies encode_utf8(chars)[i] == bytes[i] by {
            assert(chars[i] as u8 == encode_utf8(chars)[i]);
            assert(bytes[i] < 0x80);
        }
    }
    encode_utf8_valid_utf8(chars);
}

/// Joining the escaped forms distributes over joining the strings.
proof fn lemma_escape_add(a: Seq<u8>, b: Seq<u8>)
    ensures
        spec_concat(spec_escape_parts(a + b)) == spec_concat(spec_escape_parts(a)) + spec_concat(
            spec_escape_parts(b),
        ),
    decreases b.len(),
{
    if b.len() == 0 {
        assert(a + b =~= a);
        assert(spec_concat(spec_escape_parts(b)) =~= Seq::<u8>::empty());
        assert(spec_concat(spec_escape_parts(a)) + Seq::<u8>::empty() =~= spec_concat(
            spec_escape_parts(a),
        ));
    } else {
        lemma_escape_add(a, b.drop_last());
        assert(spec_escape_parts(a + b).drop_last() =~= spec_escape_parts(a + b.drop_last()));
        assert(spec_escape_parts(b).drop_last() =~= spec_escape_parts(b.drop_last()));
        assert(spec_escape_parts(a + b).last() == spec_escape_parts(b).last());
        assert(spec_concat(spec_escape_parts(a + b)) =~= spec_concat(spec_escape_parts(a)) + (
        spec_concat(spec_escape_parts(b.drop_last())) + spec_escape_parts(b).last()));
    }
}

/// The escaped form of bytes that are all 128 or above is the bytes themselves.
proof fn lemma_escape_high(b: Seq<u8>)
    requires
        forall|i: int| 0 <= i < b.len() ==> #[trigger] b[i] >= 0x80,
    ensures
        spec_concat(spec_escape_parts(b)) == b,
    decreases b.len(),
{
    if b.len() == 0 {
        assert(spec_concat(spec_escape_parts(b)) =~= b);
    } else {
        lemma_escape_high(b.drop_last());
        assert(spec_escape_parts(b).drop_last() =~= spec_escape_parts(b.drop_last()));
        assert(b.last() >= 0x80);
        assert(spec_escape_parts(b).last() =~= seq![b.last()]);
        assert(spec_concat(spec_escape_parts(b)) =~= b.drop_last() + seq![b.last()]);
        assert(b.drop_last() + seq![b.last()] =~= b);
    }
}

/// The escaped form of one character's encoding is UTF-8.
proof fn lemma_escape_scalar_valid(c: char)
    ensures
        valid_utf8(spec_concat(spec_escape_parts(encode_scalar(c as u32)))),
{
    let s = c as u32;
    let enc = encode_scalar(s);
    if has_width_1_encoding(s) {
        let b = vstd::utf8::leading_byte_width_1(s);
        assert(enc == seq![b]);
        assert(enc.len() == 1 && enc[0] == b);
        assert(b < 0x80) by {
            assert(((s & 0x7F) as u8) < 0x80) by (bit_vector);
        }
        let parts = spec_escape_parts(enc);
        assert(parts.len() == 1);
        assert(parts[0] == spec_escape_byte(b));
        assert(parts.drop_last() =~= Seq::<Seq<u8>>::empty());
        assert(spec_concat(parts.drop_last()) =~= Seq::<u8>::empty());
        assert(parts.last() == spec_escape_byte(b));
        assert(spec_concat(parts) =~= spec_escape_byte(b));
        let e = spec_escape_byte(b);
        assert(spec_is_ascii(e)) by {
            assert forall|i: int| 0 <= i < e.len() implies #[trigger] e[i] < 0x80 by {}
        }
        lemma_ascii_valid(e);
    } else {
        assert forall|i: int| 0 <= i < enc.len() implies #[trigger] enc[i] >= 0x80 by {
            assert(forall|x: u8| (0xC0u8 | x) >= 0x80) by (bit_vector);
            assert(forall|x: u8| (0xE0u8 | x) >= 0x80) by (bit_vector);
            assert(forall|x: u8| (0xF0u8 | x) >= 0x80) by (bit_vector);
            assert(forall|x: u8| (0x80u8 | x) >= 0x80) by (bit_vector);
        }
        lemma_escape_high(enc);
        let one = seq![c];
        assert(one.drop_first() =~= Seq::<char>::empty());
        assert(encode_utf8(one) =~= enc) by {
            reveal_with_fuel(encode_utf8, 2);
        }
        encode_utf8_valid_utf8(one);
    }
}

/// The escaped form of a text's encoding is UTF-8.
proof fn lemma_escape_valid(chars: Seq<char>)
    ensures
        valid_utf8(spec_concat(spec_escape_parts(encode_utf8(chars)))),
    decreases chars.len(),
{
    if chars.len() == 0 {
        assert(spec_concat(spec_escape_parts(encode_utf8(chars))) =~= Seq::<u8>::empty());
    } else {
        lemma_escape_valid(chars.drop_first());
        lemma_escape_scalar_valid(chars[0]);
        lemma_escape_add(encode_scalar(chars[0] as u32), encode_utf8(chars.drop_first()));
        valid_utf8_concat(
            spec_concat(spec_escape_parts(encode_scalar(chars[0] as u32))),
            spec_concat(spec_escape_parts(encode_utf8(chars.drop_first()))),
        );
    }
}

/// A text between quotation marks is UTF-8.
pub proof fn lemma_text_valid(chars: Seq<char>)
    ensures
        valid_utf8(spec_json_text(chars)),
{
    let q = seq![0x22u8];
    let body = spec_concat(spec_escape_parts(encode_utf8(chars)));
    lemma_escape_valid(chars);
    assert(spec_is_ascii(q));
    lemma_ascii_valid(q);
    valid_utf8_concat(q, body);
    valid_utf8_concat(q + body, q);
}

/// A number in decimal is UTF-8.
pub proof fn lemma_uint_valid(n: u64)
    ensures
        valid_utf8(spec_json_uint(n)),
{
    lemma_digits(n as nat);
    let d = spec_json_uint(n);
    assert(spec_is_ascii(d)) by {
        assert forall|i: int| 0 <= i < d.len() implies #[trigger] d[i] < 0x80 by {
            assert(crate::json::spec_is_digit(d[i]));
        }
    }
    lemma_ascii_valid(d);
}

/// A list of UTF-8 items between two bytes below 128 is UTF-8.
proof fn lemma_list_valid(items: Seq<Seq<u8>>, open: u8, close: u8)
    requires
        open < 0x80,
        close < 0x80,
        forall|i: int| 0 <= i < items.len() ==> valid_utf8(#[trigger] items[i]),
    ensures
        valid_utf8(spec_json_list(items, open, close)),
{
    if items.len() == 0 {
        let e = seq![open, close];
        assert(spec_is_ascii(e));
        lemma_ascii_valid(e);
    } else {
        let parts = spec_terminated(items, close);
        lemma_parts_valid(parts, items, close, parts.len() as int);
        assert(parts.take(parts.len() as int) =~= parts);
        let o = seq![open];
        assert(spec_is_ascii(o));
        lemma_ascii_valid(o);
        valid_utf8_concat(o, spec_concat(parts));
    }
}

proof fn lemma_parts_valid(parts: Seq<Seq<u8>>, items: Seq<Seq<u8>>, close: u8, k: int)
    requires
        close < 0x80,
        parts == spec_terminated(items, close),
        0 <= k <= parts.len(),
        forall|i: int| 0 <= i < items.len() ==> valid_utf8(#[trigger] items[i]),
    ensures
        valid_utf8(spec_concat(parts.take(k))),
    decreases k,
{
    if k == 0 {
        assert(parts.take(0) =~= Seq::<Seq<u8>>::empty());
    } else {
        lemma_parts_valid(parts, items, close, k - 1);
        crate::seqs::lemma_concat_take(parts, k - 1);
        let sep = if k - 1 < items.len() - 1 {
            0x2cu8
        } else {
            close
        };
        let s = seq![sep];
        assert(spec_is_ascii(s));
        lemma_ascii_valid(s);
        assert(parts[k - 1] =~= items[k - 1] + s);
        valid_utf8_concat(items[k - 1], s);
        valid_utf8_concat(spec_concat(parts.take(k - 1)), parts[k - 1]);
    }
}

/// A byte string of the format's own punctuation is UTF-8.
proof fn lemma_literals_valid()
    ensures
        valid_utf8(JSON_NULL@),
        valid_utf8(J_ATTR_OPEN@),
        valid_utf8(J_ATTR_MID@),
        valid_utf8(J_CLOSE@),
        valid_utf8(J_CLOSE2@),
        valid_utf8(J_COMMA@),
        valid_utf8(J_POLICY_OPEN@),
        valid_utf8(J_POLICY_MID@),
        valid_utf8(J_RECIPIENT_OPEN@),
        valid_utf8(J_RECIPIENT_MID@),
        valid_utf8(J_HEADER_OPEN@),
        valid_utf8(J_HEADER_ALGO@),
        valid_utf8(J_HEADER_MODE@),
        valid_utf8(J_AES128GCM@),
        valid_utf8(J_XSALSA20POLY1305@),
        valid_utf8(J_AES128OCB@),
        valid_utf8(J_AEGIS128@),
        valid_utf8(J_STREAMING_OPEN@),
        valid_utf8(J_STREAMING_MID@),
        valid_utf8(J_STREAMING_CLOSE@),
        valid_utf8(J_INMEMORY_OPEN@),
{
    assert(spec_is_ascii(JSON_NULL@));
    lemma_ascii_valid(JSON_NULL@);
    assert(spec_is_ascii(J_ATTR_OPEN@));
    lemma_ascii_valid(J_ATTR_OPEN@);
    assert(spec_is_ascii(J_ATTR_MID@));
    lemma_ascii_valid(J_ATTR_MID@);
    assert(spec_is_ascii(J_CLOSE@));
    lemma_ascii_valid(J_CLOSE@);
    assert(spec_is_ascii(J_CLOSE2@));
    lemma_ascii_valid(J_CLOSE2@);
    assert(spec_is_ascii(J_COMMA@));
    lemma_ascii_valid(J_COMMA@);
    assert(spec_is_ascii(J_POLICY_OPEN@));
    lemma_ascii_valid(J_POLICY_OPEN@);
    assert(spec_is_ascii(J_POLICY_MID@));
    lemma_ascii_valid(J_POLICY_MID@);
    assert(spec_is_ascii(J_RECIPIENT_OPEN@));
    lemma_ascii_valid(J_RECIPIENT_OPEN@);
    assert(spec_is_ascii(J_RECIPIENT_MID@));
    lemma_ascii_valid(J_RECIPIENT_MID@);
    assert(spec_is_ascii(J_HEADER_OPEN@));
    lemma_ascii_valid(J_HEADER_OPEN@);
    assert(spec_is_ascii(J_HEADER_ALGO@));
    lemma_ascii_valid(J_HEADER_ALGO@);
    assert(spec_is_ascii(J_HEADER_MODE@));
    lemma_ascii_valid(J_HEADER_MODE@);
    assert(spec_is_ascii(J_AES128GCM@));
    lemma_ascii_valid(J_AES128GCM@);
    assert(spec_is_ascii(J_XSALSA20POLY1305@));
    lemma_ascii_valid(J_XSALSA20POLY1305@);
    assert(spec_is_ascii(J_AES128OCB@));
    lemma_ascii_valid(J_AES128OCB@);
    assert(spec_is_ascii(J_AEGIS128@));
    lemma_ascii_valid(J_AEGIS128@);
    assert(spec_is_ascii(J_STREAMING_OPEN@));
    lemma_ascii_valid(J_STREAMING_OPEN@);
    assert(spec_is_ascii(J_STREAMING_MID@));
    lemma_ascii_valid(J_STREAMING_MID@);
    assert(spec_is_ascii(J_STREAMING_CLOSE@));
    lemma_ascii_valid(J_STREAMING_CLOSE@);
    assert(spec_is_ascii(J_INMEMORY_OPEN@));
    lemma_ascii_valid(J_INMEMORY_OPEN@);
}

proof fn lemma_attr_valid(a: AttributeView)
    ensures
        valid_utf8(spec_json_attr(a)),
{
    lemma_literals_valid();
    lemma_text_valid(a.atype);
    match a.value {
        Some(v) => {
            lemma_text_valid(v);
        },
        None => {},
    }
    let s1 = J_ATTR_OPEN@;
    let s2 = s1 + spec_json_text(a.atype);
    let s3 = s2 + J_ATTR_MID@;
    let s4 = s3 + spec_json_opt_text(a.value);
    valid_utf8_concat(s1, spec_json_text(a.atype));
    valid_utf8_concat(s2, J_ATTR_MID@);
    valid_utf8_concat(s3, spec_json_opt_text(a.value));
    valid_utf8_concat(s4, J_CLOSE@);
}

proof fn lemma_byte_array_valid(bytes: Seq<u8>)
    ensures
        valid_utf8(spec_json_byte_array(bytes)),
{
    let items = spec_json_byte_items(bytes);
    assert forall|i: int| 0 <= i < items.len() implies valid_utf8(#[trigger] items[i]) by {
        lemma_uint_valid(bytes[i] as u64);
    }
    lemma_list_valid(items, 0x5b, 0x5d);
}

proof fn lemma_policy_valid(p: PolicyView)
    ensures
        valid_utf8(spec_json_policy(p)),
{
    lemma_literals_valid();
    lemma_uint_valid(p.timestamp);
    let items = spec_json_attr_items(p.con);
    assert forall|i: int| 0 <= i < items.len() implies valid_utf8(#[trigger] items[i]) by {
        lemma_attr_valid(p.con[i]);
    }
    lemma_list_valid(items, 0x5b, 0x5d);
    let list = spec_json_list(items, 0x5b, 0x5d);
    let s1 = J_POLICY_OPEN@;
    let s2 = s1 + spec_json_uint(p.timestamp);
    let s3 = s2 + J_POLICY_MID@;
    let s4 = s3 + list;
    valid_utf8_concat(s1, spec_json_uint(p.timestamp));
    valid_utf8_concat(s2, J_POLICY_MID@);
    valid_utf8_concat(s3, list);
    valid_utf8_concat(s4, J_CLOSE@);
}

proof fn lemma_recipient_valid(r: RecipientView)
    ensures
        valid_utf8(spec_json_recipient(r)),
{
    lemma_literals_valid();
    lemma_text_valid(r.id);
    lemma_policy_valid(r.policy);
    lemma_byte_array_valid(r.ct);
    let s1 = spec_json_text(r.id);
    let s2 = s1 + J_RECIPIENT_OPEN@;
    let s3 = s2 + spec_json_policy(r.policy);
    let s4 = s3 + J_RECIPIENT_MID@;
    let s5 = s4 + spec_json_byte_array(r.ct);
    valid_utf8_concat(s1, J_RECIPIENT_OPEN@);
    valid_utf8_concat(s2, spec_json_policy(r.policy));
    valid_utf8_concat(s3, J_RECIPIENT_MID@);
    valid_utf8_concat(s4, spec_json_byte_array(r.ct));
    valid_utf8_concat(s5, J_CLOSE@);
}

proof fn lemma_algo_valid(a: Algorithm)
    ensures
        valid_utf8(spec_json_algo(a)),
{
    lemma_literals_valid();
    match a {
        Algorithm::Aes128Gcm { iv } => {
            lemma_byte_array_valid(iv@);
            valid_utf8_concat(J_AES128GCM@, spec_json_byte_array(iv@));
            valid_utf8_concat(J_AES128GCM@ + spec_json_byte_array(iv@), J_CLOSE2@);
        },
        Algorithm::XSalsa20Poly1305 { iv } => {
            lemma_byte_array_valid(iv@);
            valid_utf8_concat(J_XSALSA20POLY1305@, spec_json_byte_array(iv@));
            valid_utf8_concat(J_XSALSA20POLY1305@ + spec_json_byte_array(iv@), J_CLOSE2@);
        },
        Algorithm::Aes128Ocb { iv } => {
            lemma_byte_array_valid(iv@);
            valid_utf8_concat(J_AES128OCB@, spec_json_byte_array(iv@));
            valid_utf8_concat(J_AES128OCB@ + spec_json_byte_array(iv@), J_CLOSE2@);
        },
        Algorithm::Aegis128 { iv } => {
            lemma_byte_array_valid(iv@);
            valid_utf8_concat(J_AEGIS128@, spec_json_byte_array(iv@));
            valid_utf8_concat(J_AEGIS128@ + spec_json_byte_array(iv@), J_CLOSE2@);
        },
    }
}

proof fn lemma_mode_valid(m: Mode)
    ensures
        valid_utf8(spec_json_mode(m)),
{
    lemma_literals_valid();
    match m {
        Mode::Streaming { segment_size, size_hint } => {
            lemma_uint_valid(segment_size as u64);
            lemma_uint_valid(size_hint.0);
            match size_hint.1 {
                Some(v) => {
                    lemma_uint_valid(v);
                },
                None => {},
            }
            let s1 = J_STREAMING_OPEN@;
            let s2 = s1 + spec_json_uint(segment_size as u64);
            let s3 = s2 + J_STREAMING_MID@;
            let s4 = s3 + spec_json_uint(size_hint.0);
            let s5 = s4 + J_COMMA@;
            let s6 = s5 + spec_json_opt_uint(size_hint.1);
            valid_utf8_concat(s1, spec_json_uint(segment_size as u64));
            valid_utf8_concat(s2, J_STREAMING_MID@);
            valid_utf8_concat(s3, spec_json_uint(size_hint.0));
            valid_utf8_concat(s4, J_COMMA@);
            valid_utf8_concat(s5, spec_json_opt_uint(size_hint.1));
            valid_utf8_concat(s6, J_STREAMING_CLOSE@);
        },
        Mode::InMemory { size } => {
            lemma_uint_valid(size);
            valid_utf8_concat(J_INMEMORY_OPEN@, spec_json_uint(size));
            valid_utf8_concat(J_INMEMORY_OPEN@ + spec_json_uint(size), J_CLOSE2@);
        },
    }
}

/// The JSON text of every header is UTF-8.
pub proof fn lemma_json_valid(h: HeaderView)
    ensures
        valid_utf8(spec_json(h)),
{
    lemma_literals_valid();
    let items = spec_json_recipient_items(h.recipients);
    assert forall|i: int| 0 <= i < items.len() implies valid_utf8(#[trigger] items[i]) by {
        lemma_recipient_valid(h.recipients[i]);
    }
    lemma_list_valid(items, 0x7b, 0x7d);
    lemma_algo_valid(h.algo);
    lemma_mode_valid(h.mode);
    let list = spec_json_list(items, 0x7b, 0x7d);
    let s1 = J_HEADER_OPEN@;
    let s2 = s1 + list;
    let s3 = s2 + J_HEADER_ALGO@;
    let s4 = s3 + spec_json_algo(h.algo);
    let s5 = s4 + J_HEADER_MODE@;
    let s6 = s5 + spec_json_mode(h.mode);
    valid_utf8_concat(s1, list);
    valid_utf8_concat(s2, J_HEADER_ALGO@);
    valid_utf8_concat(s3, spec_json_algo(h.algo));
    valid_utf8_concat(s4, J_HEADER_MODE@);
    valid_utf8_concat(s5, spec_json_mode(h.mode));
    valid_utf8_concat(s6, J_CLOSE@);
}

} // verus!

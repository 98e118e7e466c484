//! The pieces of JSON text that a header is written in, as UTF-8 bytes.
//!
//! Numbers are written in decimal without leading zeros; strings are written
//! with the escapes that are required and no others; nothing is written between
//! the tokens. A reader in this module reads back what the matching writer wrote.

use crate::seqs::{
    lemma_concat_part_at,
    lemma_concat_take,
    lemma_prefix_split,
    prefix_at,
    spec_concat,
};
use vstd::prelude::*;

verus! {

/// Whether a byte is a decimal digit.
pub open spec fn spec_is_digit(b: u8) -> bool {
    0x30 <= b <= 0x39
}

/// The decimal digits of a number, without leading zeros.
pub open spec fn spec_digits(n: nat) -> Seq<u8>
    decreases n,
{
    if n < 10 {
        seq![(0x30 + n) as u8]
    } else {
        spec_digits(n / 10).push((0x30 + n % 10) as u8)
    }
}

/// The number that a string of decimal digits stands for.
pub open spec fn spec_digits_value(s: Seq<u8>) -> nat
    decreases s.len(),
{
    if s.len() == 0 {
        0
    } else {
        spec_digits_value(s.drop_last()) * 10 + (s.last() - 0x30) as nat
    }
}

/// Whether every byte is a decimal digit.
pub open spec fn spec_all_digits(s: Seq<u8>) -> bool {
    forall|i: int| 0 <= i < s.len() ==> spec_is_digit(#[trigger] s[i])
}

/// The digits of a number are digits, at least one, and stand for the number.
pub proof fn lemma_digits(n: nat)
    ensures
        spec_digits(n).len() >= 1,
        spec_all_digits(spec_digits(n)),
        spec_digits_value(spec_digits(n)) == n,
    decreases n,
{
    if n < 10 {
        let s = spec_digits(n);
        assert(s.drop_last() =~= Seq::<u8>::empty());
        assert(spec_digits_value(s.drop_last()) == 0);
    } else {
        lemma_digits(n / 10);
        let s = spec_digits(n);
        assert(s.drop_last() =~= spec_digits(n / 10));
        assert(s.last() == (0x30 + n % 10) as u8);
    }
}

/// A number in decimal.
pub open spec fn spec_json_uint(n: u64) -> Seq<u8> {
    spec_digits(n as nat)
}

/// A number in decimal, and the byte that follows it.
pub open spec fn spec_json_uint_then(n: u64, next: u8) -> Seq<u8> {
    spec_json_uint(n).push(next)
}

/// The literal `null`.
pub const JSON_NULL: [u8; 4] = [0x6e, 0x75, 0x6c, 0x6c];

/// The hexadecimal digit of a value below sixteen, in lower case.
pub open spec fn spec_hex_digit(v: u8) -> u8 {
    if v < 10 {
        (0x30 + v) as u8
    } else {
        (0x57 + v) as u8
    }
}

/// How one byte of a string is written: quotation mark, backslash and control
/// characters are escaped, every other byte stands for itself.
pub open spec fn spec_escape_byte(b: u8) -> Seq<u8> {
    if b == 0x22 {
        seq![0x5cu8, 0x22u8]
    } else if b == 0x5c {
        seq![0x5cu8, 0x5cu8]
    } else if b == 0x08 {
        seq![0x5cu8, 0x62u8]
    } else if b == 0x0c {
        seq![0x5cu8, 0x66u8]
    } else if b == 0x0a {
        seq![0x5cu8, 0x6eu8]
    } else if b == 0x0d {
        seq![0x5cu8, 0x72u8]
    } else if b == 0x09 {
        seq![0x5cu8, 0x74u8]
    } else if b < 0x20 {
        seq![0x5cu8, 0x75u8, 0x30u8, 0x30u8, spec_hex_digit(b / 16), spec_hex_digit(b % 16)]
    } else {
        seq![b]
    }
}

/// The escaped forms of the bytes of a string, in order.
pub open spec fn spec_escape_parts(bytes: Seq<u8>) -> Seq<Seq<u8>> {
    bytes.map_values(|b: u8| spec_escape_byte(b))
}

/// A string between quotation marks, given by its bytes.
pub open spec fn spec_json_str(bytes: Seq<u8>) -> Seq<u8> {
    seq![0x22u8] + spec_concat(spec_escape_parts(bytes)) + seq![0x22u8]
}

/// A string between quotation marks, given by its characters.
pub open spec fn spec_json_text(chars: Seq<char>) -> Seq<u8> {
    spec_json_str(vstd::utf8::encode_utf8(chars))
}

/// Writes a number in decimal.
pub fn write_json_uint(out: &mut Vec<u8>, n: u64)
    ensures
        final(out)@ == old(out)@ + spec_json_uint(n),
    decreases n,
{
    if n < 10 {
        out.push(0x30 + n as u8);
        assert(out@ =~= old(out)@ + spec_json_uint(n));
    } else {
        write_json_uint(out, n / 10);
        out.push(0x30 + (n % 10) as u8);
        assert(out@ =~= old(out)@ + spec_json_uint(n));
    }
}

/// Writes the hexadecimal digit of a value below sixteen.
fn hex_digit(v: u8) -> (d: u8)
    requires
        v < 16,
    ensures
        d == spec_hex_digit(v),
{
    if v < 10 {
        0x30 + v
    } else {
        0x57 + v
    }
}

/// Writes one byte of a string.
fn write_escaped_byte(out: &mut Vec<u8>, b: u8)
    ensures
        final(out)@ == old(out)@ + spec_escape_byte(b),
{
    if b == 0x22 {
        out.push(0x5c);
        out.push(0x22);
    } else if b == 0x5c {
        out.push(0x5c);
        out.push(0x5c);
    } else if b == 0x08 {
        out.push(0x5c);
        out.push(0x62);
    } else if b == 0x0c {
        out.push(0x5c);
        out.push(0x66);
    } else if b == 0x0a {
        out.push(0x5c);
        out.push(0x6e);
    } else if b == 0x0d {
        out.push(0x5c);
        out.push(0x72);
    } else if b == 0x09 {
        out.push(0x5c);
        out.push(0x74);
    } else if b < 0x20 {
        out.push(0x5c);
        out.push(0x75);
        out.push(0x30);
        out.push(0x30);
        out.push(hex_digit(b / 16));
        out.push(hex_digit(b % 16));
    } else {
        out.push(b);
    }
    assert(out@ =~= old(out)@ + spec_escape_byte(b));
}

/// Writes a string between quotation marks.
pub fn write_json_str(out: &mut Vec<u8>, bytes: &[u8])
    ensures
        final(out)@ == old(out)@ + spec_json_str(bytes@),
{
    let ghost before = out@;
    let ghost parts = spec_escape_parts(bytes@);
    out.push(0x22);
    let ghost start = out@;
    assert(parts.take(0) =~= Seq::<Seq<u8>>::empty());
    let mut i: usize = 0;
    while i < bytes.len()
        invariant
            i <= bytes@.len(),
            parts == spec_escape_parts(bytes@),
            out@ == start + spec_concat(parts.take(i as int)),
        decreases bytes@.len() - i,
    {
        proof {
            lemma_concat_take(parts, i as int);
        }
        write_escaped_byte(out, bytes[i]);
        i += 1;
    }
    assert(parts.take(bytes@.len() as int) =~= parts);
    out.push(0x22);
    assert(out@ =~= before + spec_json_str(bytes@));
}

/// Reads a number in decimal at `pos`: the longest run of digits there. It fails
/// where there is no digit or the number does not fit in sixty-four bits.
pub(crate) fn read_json_uint(input: &[u8], pos: usize) -> (res: Option<(u64, usize)>)
    requires
        pos <= input@.len(),
    ensures
        res matches Some((_, next)) ==> pos < next <= input@.len(),
        forall|n: u64, t: u8| #[trigger]
            prefix_at(input@, pos as int, spec_json_uint_then(n, t)) && !spec_is_digit(t) ==> (
            res matches Some((v, next)) && v == n && next == pos + spec_json_uint(n).len()),
{
    let len = input.len();
    let mut cur: usize = pos;
    let mut acc: u64 = 0;
    let mut overflow = false;
    assert(input@.subrange(pos as int, pos as int) =~= Seq::<u8>::empty());
    while cur < len && 0x30 <= input[cur] && input[cur] <= 0x39
        invariant
            pos <= cur <= len,
            len == input@.len(),
            spec_all_digits(input@.subrange(pos as int, cur as int)),
            !overflow ==> acc == spec_digits_value(input@.subrange(pos as int, cur as int)),
            overflow ==> spec_digits_value(input@.subrange(pos as int, cur as int)) > u64::MAX,
        decreases len - cur,
    {
        let d = (input[cur] - 0x30) as u64;
        proof {
            let run = input@.subrange(pos as int, cur + 1);
            assert(run.drop_last() =~= input@.subrange(pos as int, cur as int));
            assert(run.last() == input@[cur as int]);
        }
        if overflow || acc > (u64::MAX - d) / 10 {
            overflow = true;
        } else {
            acc = acc * 10 + d;
        }
        cur += 1;
    }
    let res = if cur == pos || overflow {
        None
    } else {
        Some((acc, cur))
    };
    proof {
        assert forall|n: u64, t: u8| #[trigger]
            prefix_at(input@, pos as int, spec_json_uint_then(n, t)) && !spec_is_digit(
                t,
            ) implies (res matches Some((v, next)) && v == n && next == pos + spec_json_uint(
            n,
        ).len()) by {
            let digits = spec_json_uint(n);
            let whole = spec_json_uint_then(n, t);
            let k = digits.len() as int;
            lemma_digits(n as nat);
            let got = input@.subrange(pos as int, pos + whole.len());
            assert(got == whole);
            assert(input@[pos + k] == got[k]);
            assert(whole[k] == t);
            // the run of digits ends exactly behind the number
            if cur < pos + k {
                let i = cur - pos;
                assert(got[i] == input@[cur as int]);
                assert(whole[i] == digits[i]);
                assert(spec_is_digit(digits[i]));
            }
            if cur > pos + k {
                assert(input@.subrange(pos as int, cur as int)[k] == input@[pos + k]);
            }
            assert(cur == pos + k);
            assert(input@.subrange(pos as int, cur as int) =~= digits);
        }
    }
    res
}

/// Reads one hexadecimal digit in lower case.
fn read_hex_digit(b: u8) -> (v: Option<u8>)
    ensures
        forall|x: u8| x < 16 && b == spec_hex_digit(x) ==> v == Some(x),
        v matches Some(x) ==> x < 16,
{
    if 0x30 <= b && b <= 0x39 {
        Some(b - 0x30)
    } else if 0x61 <= b && b <= 0x66 {
        Some(b - 0x57)
    } else {
        None
    }
}

/// Reads one byte of a string at `pos`: an escape, or a byte that stands for
/// itself. It reads back what was written for any byte.
fn read_escaped_byte(input: &[u8], pos: usize) -> (res: Option<(u8, usize)>)
    requires
        pos < input@.len(),
        input@[pos as int] != 0x22,
    ensures
        res matches Some((_, next)) ==> pos < next <= input@.len(),
        forall|b: u8| #[trigger]
            prefix_at(input@, pos as int, spec_escape_byte(b)) ==> (res matches Some((v, next))
                && v == b && next == pos + spec_escape_byte(b).len()),
{
    let len = input.len();
    let first = input[pos];
    let res = if first != 0x5c {
        if first < 0x20 {
            None
        } else {
            Some((first, pos + 1))
        }
    } else if len - pos < 2 {
        None
    } else {
        let second = input[pos + 1];
        if second == 0x22 {
            Some((0x22u8, pos + 2))
        } else if second == 0x5c {
            Some((0x5cu8, pos + 2))
        } else if second == 0x62 {
            Some((0x08u8, pos + 2))
        } else if second == 0x66 {
            Some((0x0cu8, pos + 2))
        } else if second == 0x6e {
            Some((0x0au8, pos + 2))
        } else if second == 0x72 {
            Some((0x0du8, pos + 2))
        } else if second == 0x74 {
            Some((0x09u8, pos + 2))
        } else if second == 0x75 && len - pos >= 6 && input[pos + 2] == 0x30 && input[pos + 3]
            == 0x30 {
            match (read_hex_digit(input[pos + 4]), read_hex_digit(input[pos + 5])) {
                (Some(hi), Some(lo)) => Some((hi * 16 + lo, pos + 6)),
                _ => None,
            }
        } else {
            None
        }
    };
    proof {
        assert forall|b: u8| #[trigger]
            prefix_at(input@, pos as int, spec_escape_byte(b)) implies (res matches Some((v, next))
            && v == b && next == pos + spec_escape_byte(b).len()) by {
            let e = spec_escape_byte(b);
            let got = input@.subrange(pos as int, pos + e.len());
            assert(got == e);
            assert(got[0] == input@[pos as int]);
            if e.len() >= 2 {
                assert(got[1] == input@[pos + 1]);
            }
            if e.len() == 6 {
                assert(got[2] == input@[pos + 2]);
                assert(got[3] == input@[pos + 3]);
                assert(got[4] == input@[pos + 4]);
                assert(got[5] == input@[pos + 5]);
                assert(b / 16 < 16 && b % 16 < 16);
                assert(b == (b / 16) * 16 + b % 16);
            }
        }
    }
    res
}

/// No escaped form begins with a quotation mark.
proof fn lemma_escape_first(b: u8)
    ensures
        spec_escape_byte(b).len() >= 1,
        spec_escape_byte(b)[0] != 0x22,
{
}

/// Reads a string between quotation marks at `pos` and returns its bytes. It
/// reads back what [`write_json_str`] wrote.
pub(crate) fn read_json_str(input: &[u8], pos: usize) -> (res: Option<(Vec<u8>, usize)>)
    requires
        pos <= input@.len(),
    ensures
        res matches Some((_, next)) ==> pos < next <= input@.len(),
        forall|bytes: Seq<u8>| #[trigger]
            prefix_at(input@, pos as int, spec_json_str(bytes)) ==> (res matches Some((v, next))
                && v@ == bytes && next == pos + spec_json_str(bytes).len()),
{
    let len = input.len();
    if pos >= len || input[pos] != 0x22 {
        proof {
            assert forall|bytes: Seq<u8>| #[trigger]
                prefix_at(input@, pos as int, spec_json_str(bytes)) implies false by {
                let e = spec_json_str(bytes);
                assert(input@.subrange(pos as int, pos + e.len())[0] == input@[pos as int]);
            }
        }
        return None;
    }
    let start = pos + 1;
    let mut cur: usize = start;
    let mut out: Vec<u8> = Vec::new();
    proof {
        assert forall|bytes: Seq<u8>| #[trigger]
            prefix_at(input@, pos as int, spec_json_str(bytes)) implies prefix_at(
            input@,
            start as int,
            spec_concat(spec_escape_parts(bytes)),
        ) && prefix_at(
            input@,
            start + spec_concat(spec_escape_parts(bytes)).len(),
            seq![0x22u8],
        ) && cur == start + spec_concat(spec_escape_parts(bytes).take(0)).len() && out@
            == bytes.take(0) by {
            let q = seq![0x22u8];
            let body = spec_concat(spec_escape_parts(bytes));
            lemma_prefix_split(input@, pos as int, q + body, q);
            lemma_prefix_split(input@, pos as int, q, body);
            assert(spec_escape_parts(bytes).take(0) =~= Seq::<Seq<u8>>::empty());
            assert(out@ =~= bytes.take(0));
        }
    }
    loop
        invariant
            pos < start <= cur <= len,
            start == pos + 1,
            len == input@.len(),
            forall|bytes: Seq<u8>| #[trigger]
                prefix_at(input@, pos as int, spec_json_str(bytes)) ==> prefix_at(
                    input@,
                    start as int,
                    spec_concat(spec_escape_parts(bytes)),
                ) && prefix_at(
                    input@,
                    start + spec_concat(spec_escape_parts(bytes)).len(),
                    seq![0x22u8],
                ),
            forall|bytes: Seq<u8>| #[trigger]
                prefix_at(input@, pos as int, spec_json_str(bytes)) ==> out@.len() <= bytes.len()
                    && cur == start + spec_concat(
                    spec_escape_parts(bytes).take(out@.len() as int),
                ).len(),
            forall|bytes: Seq<u8>| #[trigger]
                prefix_at(input@, pos as int, spec_json_str(bytes)) ==> out@ == bytes.take(
                    out@.len() as int,
                ),
        decreases len - cur,
    {
        if cur >= len {
            proof {
                assert forall|bytes: Seq<u8>| #[trigger]
                    prefix_at(input@, pos as int, spec_json_str(bytes)) implies false by {
                    let parts = spec_escape_parts(bytes);
                    crate::seqs::lemma_concat_prefix(parts, out@.len() as int);
                }
            }
            return None;
        }
        let ghost i = out@.len() as int;
        if input[cur] == 0x22 {
            proof {
                assert forall|bytes: Seq<u8>| #[trigger]
                    prefix_at(input@, pos as int, spec_json_str(bytes)) implies out@ == bytes
                    && cur + 1 == pos + spec_json_str(bytes).len() by {
                    let parts = spec_escape_parts(bytes);
                    if i < bytes.len() {
                        lemma_concat_part_at(input@, start as int, parts, i);
                        lemma_escape_first(bytes[i]);
                        let e = spec_escape_byte(bytes[i]);
                        assert(input@.subrange(cur as int, cur + e.len())[0] == input@[cur as int]);
                    }
                    assert(parts.take(i) =~= parts);
                    assert(bytes.take(i) =~= bytes);
                }
            }
            return Some((out, cur + 1));
        }
        let r = read_escaped_byte(input, cur);
        let ghost old_out = out@;
        proof {
            assert forall|bytes: Seq<u8>| #[trigger]
                prefix_at(input@, pos as int, spec_json_str(bytes)) implies i < bytes.len() && (
            r matches Some((v, next)) && v == bytes[i] && next == start + spec_concat(
                spec_escape_parts(bytes).take(i + 1),
            ).len()) by {
                let parts = spec_escape_parts(bytes);
                if i == bytes.len() {
                    assert(parts.take(i) =~= parts);
                    let q = seq![0x22u8];
                    assert(input@.subrange(cur as int, cur + 1)[0] == input@[cur as int]);
                    assert(q[0] == 0x22u8);
                }
                lemma_concat_part_at(input@, start as int, parts, i);
                assert(prefix_at(input@, cur as int, spec_escape_byte(bytes[i])));
            }
        }
        match r {
            None => {
                return None;
            },
            Some((b, next)) => {
                out.push(b);
                cur = next;
            },
        }
        proof {
            assert forall|bytes: Seq<u8>| #[trigger]
                prefix_at(input@, pos as int, spec_json_str(bytes)) implies out@ == bytes.take(
                out@.len() as int,
            ) by {
                assert(old_out == bytes.take(i));
                assert(out@ =~= old_out.push(bytes[i]));
                assert(bytes.take(i + 1) =~= bytes.take(i).push(bytes[i]));
            }
        }
    }
}

/// Reads a string between quotation marks and returns it as text.
pub(crate) fn read_json_text(input: &[u8], pos: usize) -> (res: Option<(String, usize)>)
    requires
        pos <= input@.len(),
    ensures
        res matches Some((_, next)) ==> pos < next <= input@.len(),
        forall|chars: Seq<char>| #[trigger]
            prefix_at(input@, pos as int, spec_json_text(chars)) ==> (res matches Some((s, next))
                && s@ == chars && next == pos + spec_json_text(chars).len()),
{
    let res = match read_json_str(input, pos) {
        None => None,
        Some((bytes, next)) => match crate::msgpack::string_from_utf8(bytes) {
            None => None,
            Some(s) => Some((s, next)),
        },
    };
    proof {
        assert forall|chars: Seq<char>| #[trigger]
            prefix_at(input@, pos as int, spec_json_text(chars)) implies (res matches Some(
            (s, next),
        ) && s@ == chars && next == pos + spec_json_text(chars).len()) by {
            assert(prefix_at(input@, pos as int, spec_json_str(vstd::utf8::encode_utf8(chars))));
            vstd::utf8::encode_utf8_valid_utf8(chars);
            vstd::utf8::encode_utf8_decode_utf8(chars);
        }
    }
    res
}

/// Writes a text between quotation marks.
pub fn write_json_text(out: &mut Vec<u8>, text: &str)
    ensures
        final(out)@ == old(out)@ + spec_json_text(text@),
{
    write_json_str(out, text.as_bytes());
}

} // verus!

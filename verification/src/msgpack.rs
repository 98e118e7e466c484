//! The pieces of the MessagePack format that a header is written in.
//!
//! Every value is written in its shortest form. A reader in this module accepts a
//! piece at a position of its input and says where the next piece begins; each is
//! proved to read back whatever the matching writer wrote.

use crate::bytes::{
    extend_bytes,
    lemma_be16_roundtrip,
    lemma_be32_roundtrip,
    lemma_be64_roundtrip,
    push_be16,
    push_be32,
    push_be64,
    read_be16,
    read_be32,
    read_be64,
    spec_be16,
    spec_be32,
    spec_be64,
};
use crate::seqs::{
    lemma_concat_part_at,
    lemma_concat_take,
    lemma_prefix_split,
    prefix_at,
    spec_concat,
};
use vstd::prelude::*;
use vstd::utf8::{decode_utf8, encode_utf8, valid_utf8};

verus! {

/// An unsigned integer in its shortest form.
pub open spec fn spec_uint(n: u64) -> Seq<u8> {
    if n < 0x80 {
        seq![n as u8]
    } else if n < 0x100 {
        seq![0xccu8, n as u8]
    } else if n < 0x1_0000 {
        seq![0xcdu8] + spec_be16(n as u16)
    } else if n < 0x1_0000_0000 {
        seq![0xceu8] + spec_be32(n as u32)
    } else {
        seq![0xcfu8] + spec_be64(n)
    }
}

/// The nil value.
pub open spec fn spec_nil() -> Seq<u8> {
    seq![0xc0u8]
}

/// The marker that opens a string of `len` bytes, for `len` below 2^32.
pub open spec fn spec_str_header(len: nat) -> Seq<u8> {
    if len < 32 {
        seq![(0xa0 + len) as u8]
    } else if len < 0x100 {
        seq![0xd9u8, len as u8]
    } else if len < 0x1_0000 {
        seq![0xdau8] + spec_be16(len as u16)
    } else {
        seq![0xdbu8] + spec_be32(len as u32)
    }
}

/// A string, given by its bytes.
pub open spec fn spec_str(bytes: Seq<u8>) -> Seq<u8> {
    spec_str_header(bytes.len()) + bytes
}

/// A string, given by its characters.
pub open spec fn spec_text(chars: Seq<char>) -> Seq<u8> {
    spec_str(encode_utf8(chars))
}

/// The marker that opens an array of `len` items, for `len` below 2^32.
pub open spec fn spec_array_header(len: nat) -> Seq<u8> {
    if len < 16 {
        seq![(0x90 + len) as u8]
    } else if len < 0x1_0000 {
        seq![0xdcu8] + spec_be16(len as u16)
    } else {
        seq![0xddu8] + spec_be32(len as u32)
    }
}

/// The marker that opens a map of `len` entries, for `len` below 2^32.
pub open spec fn spec_map_header(len: nat) -> Seq<u8> {
    if len < 16 {
        seq![(0x80 + len) as u8]
    } else if len < 0x1_0000 {
        seq![0xdeu8] + spec_be16(len as u16)
    } else {
        seq![0xdfu8] + spec_be32(len as u32)
    }
}

/// The encodings of the bytes of an array, each as an unsigned integer.
pub open spec fn spec_byte_parts(bytes: Seq<u8>) -> Seq<Seq<u8>> {
    bytes.map_values(|b: u8| spec_uint(b as u64))
}

/// An array of bytes: its length, then each byte as an unsigned integer.
pub open spec fn spec_byte_array(bytes: Seq<u8>) -> Seq<u8> {
    spec_array_header(bytes.len()) + spec_concat(spec_byte_parts(bytes))
}

/// Writes an unsigned integer.
pub fn write_uint(out: &mut Vec<u8>, n: u64)
    ensures
        final(out)@ == old(out)@ + spec_uint(n),
{
    let ghost before = out@;
    if n < 0x80 {
        out.push(n as u8);
    } else if n < 0x100 {
        out.push(0xcc);
        out.push(n as u8);
    } else if n < 0x1_0000 {
        out.push(0xcd);
        push_be16(out, n as u16);
    } else if n < 0x1_0000_0000 {
        out.push(0xce);
        push_be32(out, n as u32);
    } else {
        out.push(0xcf);
        push_be64(out, n);
    }
    assert(out@ =~= before + spec_uint(n));
}

/// Writes the nil value.
pub fn write_nil(out: &mut Vec<u8>)
    ensures
        final(out)@ == old(out)@ + spec_nil(),
{
    out.push(0xc0);
    assert(out@ =~= old(out)@ + spec_nil());
}

/// Writes a string, or reports that it is too long to be written.
pub fn write_str(out: &mut Vec<u8>, bytes: &[u8]) -> (fits: bool)
    ensures
        fits == (bytes@.len() < 0x1_0000_0000),
        fits ==> final(out)@ == old(out)@ + spec_str(bytes@),
        !fits ==> final(out)@ == old(out)@,
{
    let ghost before = out@;
    let len = bytes.len();
    if len < 32 {
        out.push((0xa0 + len) as u8);
    } else if len < 0x100 {
        out.push(0xd9);
        out.push(len as u8);
    } else if len < 0x1_0000 {
        out.push(0xda);
        push_be16(out, len as u16);
    } else if len as u64 <= 0xFFFF_FFFF {
        out.push(0xdb);
        push_be32(out, len as u32);
    } else {
        return false;
    }
    assert(out@ =~= before + spec_str_header(len as nat));
    extend_bytes(out, bytes);
    assert(out@ =~= before + spec_str(bytes@));
    true
}

/// Writes the marker of an array, or reports that it has too many items.
pub fn write_array_header(out: &mut Vec<u8>, len: usize) -> (fits: bool)
    ensures
        fits == (len < 0x1_0000_0000),
        fits ==> final(out)@ == old(out)@ + spec_array_header(len as nat),
        !fits ==> final(out)@ == old(out)@,
{
    let ghost before = out@;
    if len < 16 {
        out.push((0x90 + len) as u8);
    } else if len < 0x1_0000 {
        out.push(0xdc);
        push_be16(out, len as u16);
    } else if len as u64 <= 0xFFFF_FFFF {
        out.push(0xdd);
        push_be32(out, len as u32);
    } else {
        return false;
    }
    assert(out@ =~= before + spec_array_header(len as nat));
    true
}

/// Writes the marker of a map, or reports that it has too many entries.
pub fn write_map_header(out: &mut Vec<u8>, len: usize) -> (fits: bool)
    ensures
        fits == (len < 0x1_0000_0000),
        fits ==> final(out)@ == old(out)@ + spec_map_header(len as nat),
        !fits ==> final(out)@ == old(out)@,
{
    let ghost before = out@;
    if len < 16 {
        out.push((0x80 + len) as u8);
    } else if len < 0x1_0000 {
        out.push(0xde);
        push_be16(out, len as u16);
    } else if len as u64 <= 0xFFFF_FFFF {
        out.push(0xdf);
        push_be32(out, len as u32);
    } else {
        return false;
    }
    assert(out@ =~= before + spec_map_header(len as nat));
    true
}

/// Writes an array of bytes.
pub fn write_byte_array(out: &mut Vec<u8>, bytes: &[u8]) -> (fits: bool)
    ensures
        fits == (bytes@.len() < 0x1_0000_0000),
        fits ==> final(out)@ == old(out)@ + spec_byte_array(bytes@),
        !fits ==> final(out)@ == old(out)@,
{
    let ghost before = out@;
    let ghost parts = spec_byte_parts(bytes@);
    let len = bytes.len();
    if !write_array_header(out, len) {
        return false;
    }
    let ghost start = out@;
    let mut i: usize = 0;
    assert(parts.take(0) =~= Seq::<Seq<u8>>::empty());
    while i < len
        invariant
            i <= len,
            len == bytes@.len(),
            parts == spec_byte_parts(bytes@),
            out@ == start + spec_concat(parts.take(i as int)),
        decreases len - i,
    {
        proof {
            lemma_concat_take(parts, i as int);
        }
        write_uint(out, bytes[i] as u64);
        i += 1;
    }
    assert(parts.take(len as int) =~= parts);
    assert(out@ =~= before + spec_byte_array(bytes@));
    true
}

/// Reads an unsigned integer at `pos`. It reads back what [`write_uint`] wrote.
pub(crate) fn read_uint(input: &[u8], pos: usize) -> (res: Option<(u64, usize)>)
    requires
        pos <= input@.len(),
    ensures
        res matches Some((_, next)) ==> pos < next <= input@.len(),
        forall|n: u64| #[trigger]
            prefix_at(input@, pos as int, spec_uint(n)) ==> (res matches Some((v, next)) && v == n
                && next == pos + spec_uint(n).len()),
{
    let len = input.len();
    let res = if pos >= len {
        None
    } else {
        let m = input[pos];
        if m < 0x80 {
            Some((m as u64, pos + 1))
        } else if m == 0xcc && len - pos >= 2 {
            Some((input[pos + 1] as u64, pos + 2))
        } else if m == 0xcd && len - pos >= 3 {
            Some((read_be16(input, pos + 1) as u64, pos + 3))
        } else if m == 0xce && len - pos >= 5 {
            Some((read_be32(input, pos + 1) as u64, pos + 5))
        } else if m == 0xcf && len - pos >= 9 {
            Some((read_be64(input, pos + 1), pos + 9))
        } else {
            None
        }
    };
    proof {
        assert forall|n: u64| #[trigger]
            prefix_at(input@, pos as int, spec_uint(n)) implies (res matches Some((v, next)) && v
            == n && next == pos + spec_uint(n).len()) by {
            let e = spec_uint(n);
            let got = input@.subrange(pos as int, pos + e.len());
            assert(got == e);
            assert(input@[pos as int] == got[0]);
            if n < 0x80 {
            } else if n < 0x100 {
                assert(input@[pos + 1] == got[1]);
            } else if n < 0x1_0000 {
                lemma_be16_roundtrip(n as u16);
                assert(input@.subrange(pos + 1, pos + 3) =~= got.subrange(1, 3));
                assert(got.subrange(1, 3) =~= spec_be16(n as u16));
            } else if n < 0x1_0000_0000 {
                lemma_be32_roundtrip(n as u32);
                assert(input@.subrange(pos + 1, pos + 5) =~= got.subrange(1, 5));
                assert(got.subrange(1, 5) =~= spec_be32(n as u32));
            } else {
                lemma_be64_roundtrip(n);
                assert(input@.subrange(pos + 1, pos + 9) =~= got.subrange(1, 9));
                assert(got.subrange(1, 9) =~= spec_be64(n));
            }
        }
    }
    res
}

/// Reads the nil value at `pos`.
pub fn read_nil(input: &[u8], pos: usize) -> (res: Option<usize>)
    requires
        pos <= input@.len(),
    ensures
        match res {
            Some(next) => prefix_at(input@, pos as int, spec_nil()) && next == pos + 1,
            None => !prefix_at(input@, pos as int, spec_nil()),
        },
{
    if pos < input.len() && input[pos] == 0xc0 {
        assert(input@.subrange(pos as int, pos + 1) =~= spec_nil());
        Some(pos + 1)
    } else {
        proof {
            if pos < input@.len() {
                assert(input@.subrange(pos as int, pos + 1)[0] == input@[pos as int]);
            }
        }
        None
    }
}

/// Checks that the bytes `pat` stand at `pos`.
pub fn expect_bytes(input: &[u8], pos: usize, pat: &[u8]) -> (res: Option<usize>)
    requires
        pos <= input@.len(),
    ensures
        match res {
            Some(next) => prefix_at(input@, pos as int, pat@) && next == pos + pat@.len(),
            None => !prefix_at(input@, pos as int, pat@),
        },
{
    let len = input.len();
    let n = pat.len();
    if len - pos < n {
        return None;
    }
    let mut i: usize = 0;
    while i < n
        invariant
            i <= n,
            n == pat@.len(),
            len == input@.len(),
            pos + n <= len,
            forall|j: int| 0 <= j < i ==> input@[pos + j] == pat@[j],
        decreases n - i,
    {
        if input[pos + i] != pat[i] {
            assert(input@.subrange(pos as int, pos + n)[i as int] == input@[pos + i]);
            return None;
        }
        i += 1;
    }
    assert(input@.subrange(pos as int, pos + n) =~= pat@);
    Some(pos + n)
}

/// Reads the marker of a string at `pos` and returns the string's length. It
/// reads back the marker of every length below 2^32.
pub(crate) fn read_str_header(input: &[u8], pos: usize) -> (res: Option<(usize, usize)>)
    requires
        pos <= input@.len(),
    ensures
        res matches Some((_, next)) ==> pos < next <= input@.len(),
        forall|len: nat| #[trigger]
            prefix_at(input@, pos as int, spec_str_header(len)) && len < 0x1_0000_0000 ==> (
            res matches Some((count, next)) && count == len && next == pos + spec_str_header(
                len,
            ).len()),
{
    let total = input.len();
    let res = if pos >= total {
        None
    } else {
        let m = input[pos];
        if 0xa0 <= m && m < 0xc0 {
            Some(((m - 0xa0) as usize, pos + 1))
        } else if m == 0xd9 && total - pos >= 2 {
            Some((input[pos + 1] as usize, pos + 2))
        } else if m == 0xda && total - pos >= 3 {
            Some((read_be16(input, pos + 1) as usize, pos + 3))
        } else if m == 0xdb && total - pos >= 5 {
            Some((read_be32(input, pos + 1) as usize, pos + 5))
        } else {
            None
        }
    };
    proof {
        assert forall|len: nat| #[trigger]
            prefix_at(input@, pos as int, spec_str_header(len)) && len
                < 0x1_0000_0000 implies (res matches Some((count, next)) && count == len && next
            == pos + spec_str_header(len).len()) by {
            let e = spec_str_header(len);
            let got = input@.subrange(pos as int, pos + e.len());
            assert(got == e);
            assert(input@[pos as int] == got[0]);
            if len < 32 {
            } else if len < 0x100 {
                assert(input@[pos + 1] == got[1]);
            } else if len < 0x1_0000 {
                lemma_be16_roundtrip(len as u16);
                assert(input@.subrange(pos + 1, pos + 3) =~= got.subrange(1, 3));
                assert(got.subrange(1, 3) =~= spec_be16(len as u16));
            } else {
                lemma_be32_roundtrip(len as u32);
                assert(input@.subrange(pos + 1, pos + 5) =~= got.subrange(1, 5));
                assert(got.subrange(1, 5) =~= spec_be32(len as u32));
            }
        }
    }
    res
}

/// Reads the marker of an array at `pos` and returns the number of its items.
pub(crate) fn read_array_header(input: &[u8], pos: usize) -> (res: Option<(usize, usize)>)
    requires
        pos <= input@.len(),
    ensures
        res matches Some((_, next)) ==> pos < next <= input@.len(),
        forall|len: nat| #[trigger]
            prefix_at(input@, pos as int, spec_array_header(len)) && len < 0x1_0000_0000 ==> (
            res matches Some((count, next)) && count == len && next == pos + spec_array_header(
                len,
            ).len()),
{
    let total = input.len();
    let res = if pos >= total {
        None
    } else {
        let m = input[pos];
        if 0x90 <= m && m < 0xa0 {
            Some(((m - 0x90) as usize, pos + 1))
        } else if m == 0xdc && total - pos >= 3 {
            Some((read_be16(input, pos + 1) as usize, pos + 3))
        } else if m == 0xdd && total - pos >= 5 {
            Some((read_be32(input, pos + 1) as usize, pos + 5))
        } else {
            None
        }
    };
    proof {
        assert forall|len: nat| #[trigger]
            prefix_at(input@, pos as int, spec_array_header(len)) && len
                < 0x1_0000_0000 implies (res matches Some((count, next)) && count == len && next
            == pos + spec_array_header(len).len()) by {
            let e = spec_array_header(len);
            let got = input@.subrange(pos as int, pos + e.len());
            assert(got == e);
            assert(input@[pos as int] == got[0]);
            if len < 16 {
            } else if len < 0x1_0000 {
                lemma_be16_roundtrip(len as u16);
                assert(input@.subrange(pos + 1, pos + 3) =~= got.subrange(1, 3));
                assert(got.subrange(1, 3) =~= spec_be16(len as u16));
            } else {
                lemma_be32_roundtrip(len as u32);
                assert(input@.subrange(pos + 1, pos + 5) =~= got.subrange(1, 5));
                assert(got.subrange(1, 5) =~= spec_be32(len as u32));
            }
        }
    }
    res
}

/// Reads the marker of a map at `pos` and returns the number of its entries.
pub(crate) fn read_map_header(input: &[u8], pos: usize) -> (res: Option<(usize, usize)>)
    requires
        pos <= input@.len(),
    ensures
        res matches Some((_, next)) ==> pos < next <= input@.len(),
        forall|len: nat| #[trigger]
            prefix_at(input@, pos as int, spec_map_header(len)) && len < 0x1_0000_0000 ==> (
            res matches Some((count, next)) && count == len && next == pos + spec_map_header(
                len,
            ).len()),
{
    let total = input.len();
    let res = if pos >= total {
        None
    } else {
        let m = input[pos];
        if 0x80 <= m && m < 0x90 {
            Some(((m - 0x80) as usize, pos + 1))
        } else if m == 0xde && total - pos >= 3 {
            Some((read_be16(input, pos + 1) as usize, pos + 3))
        } else if m == 0xdf && total - pos >= 5 {
            Some((read_be32(input, pos + 1) as usize, pos + 5))
        } else {
            None
        }
    };
    proof {
        assert forall|len: nat| #[trigger]
            prefix_at(input@, pos as int, spec_map_header(len)) && len
                < 0x1_0000_0000 implies (res matches Some((count, next)) && count == len && next
            == pos + spec_map_header(len).len()) by {
            let e = spec_map_header(len);
            let got = input@.subrange(pos as int, pos + e.len());
            assert(got == e);
            assert(input@[pos as int] == got[0]);
            if len < 16 {
            } else if len < 0x1_0000 {
                lemma_be16_roundtrip(len as u16);
                assert(input@.subrange(pos + 1, pos + 3) =~= got.subrange(1, 3));
                assert(got.subrange(1, 3) =~= spec_be16(len as u16));
            } else {
                lemma_be32_roundtrip(len as u32);
                assert(input@.subrange(pos + 1, pos + 5) =~= got.subrange(1, 5));
                assert(got.subrange(1, 5) =~= spec_be32(len as u32));
            }
        }
    }
    res
}

/// Reads a string at `pos` and returns its bytes. It reads back what
/// [`write_str`] wrote.
pub(crate) fn read_str(input: &[u8], pos: usize) -> (res: Option<(Vec<u8>, usize)>)
    requires
        pos <= input@.len(),
    ensures
        res matches Some((_, next)) ==> pos < next <= input@.len(),
        forall|bytes: Seq<u8>| #[trigger]
            prefix_at(input@, pos as int, spec_str(bytes)) && bytes.len() < 0x1_0000_0000 ==> (
            res matches Some((v, next)) && v@ == bytes && next == pos + spec_str(bytes).len()),
{
    let total = input.len();
    let res = match read_str_header(input, pos) {
        None => None,
        Some((len, start)) => {
            if total - start < len {
                None
            } else {
                Some((crate::bytes::copy_range(input, start, start + len), start + len))
            }
        },
    };
    proof {
        assert forall|bytes: Seq<u8>| #[trigger]
            prefix_at(input@, pos as int, spec_str(bytes)) && bytes.len()
                < 0x1_0000_0000 implies (res matches Some((v, next)) && v@ == bytes && next == pos
            + spec_str(bytes).len()) by {
            lemma_prefix_split(input@, pos as int, spec_str_header(bytes.len()), bytes);
            assert(prefix_at(input@, pos as int, spec_str_header(bytes.len())));
        }
    }
    res
}

/// Calls `String::from_utf8`: the text that the bytes encode, or `None` where
/// they are not valid UTF-8.
#[verifier::external_body]
pub(crate) fn string_from_utf8(bytes: Vec<u8>) -> (text: Option<String>)
    ensures
        match text {
            Some(s) => valid_utf8(bytes@) && s@ == decode_utf8(bytes@),
            None => !valid_utf8(bytes@),
        },
{
    String::from_utf8(bytes).ok()
}

/// Reads a string at `pos` and returns it as text. It reads back every text that
/// was written as a string.
pub(crate) fn read_text(input: &[u8], pos: usize) -> (res: Option<(String, usize)>)
    requires
        pos <= input@.len(),
    ensures
        res matches Some((_, next)) ==> pos < next <= input@.len(),
        forall|chars: Seq<char>| #[trigger]
            prefix_at(input@, pos as int, spec_text(chars)) && encode_utf8(chars).len()
                < 0x1_0000_0000 ==> (res matches Some((s, next)) && s@ == chars && next == pos
                + spec_text(chars).len()),
{
    let ghost mut raw: Seq<u8> = Seq::empty();
    let res = match read_str(input, pos) {
        None => None,
        Some((bytes, next)) => {
            proof {
                raw = bytes@;
            }
            match string_from_utf8(bytes) {
                None => None,
                Some(s) => Some((s, next)),
            }
        },
    };
    proof {
        assert forall|chars: Seq<char>| #[trigger]
            prefix_at(input@, pos as int, spec_text(chars)) && encode_utf8(chars).len()
                < 0x1_0000_0000 implies (res matches Some((s, next)) && s@ == chars && next == pos
            + spec_text(chars).len()) by {
            assert(prefix_at(input@, pos as int, spec_str(encode_utf8(chars))));
            vstd::utf8::encode_utf8_valid_utf8(chars);
            vstd::utf8::encode_utf8_decode_utf8(chars);
        }
    }
    res
}

/// Writes a text as a string, or reports that it is too long to be written.
pub fn write_text(out: &mut Vec<u8>, text: &str) -> (fits: bool)
    ensures
        fits == (encode_utf8(text@).len() < 0x1_0000_0000),
        fits ==> final(out)@ == old(out)@ + spec_text(text@),
        !fits ==> final(out)@ == old(out)@,
{
    write_str(out, text.as_bytes())
}

/// Reads an array of exactly `N` bytes at `pos`. It reads back what
/// [`write_byte_array`] wrote for `N` bytes.
pub(crate) fn read_byte_array<const N: usize>(input: &[u8], pos: usize) -> (res: Option<([u8; N], usize)>)
    requires
        pos <= input@.len(),
        N < 0x1_0000_0000,
    ensures
        res matches Some((_, next)) ==> pos < next <= input@.len(),
        forall|bytes: Seq<u8>| #[trigger]
            prefix_at(input@, pos as int, spec_byte_array(bytes)) && bytes.len() == N ==> (
            res matches Some((a, next)) && a@ == bytes && next == pos + spec_byte_array(
                bytes,
            ).len()),
{
    let total = input.len();
    let hdr = read_array_header(input, pos);
    proof {
        assert forall|bytes: Seq<u8>| #[trigger]
            prefix_at(input@, pos as int, spec_byte_array(bytes)) && bytes.len() == N implies (
        hdr matches Some((count, next)) && count == N && next == pos + spec_array_header(
            N as nat,
        ).len()) && prefix_at(
            input@,
            pos + spec_array_header(N as nat).len(),
            spec_concat(spec_byte_parts(bytes)),
        ) by {
            lemma_prefix_split(
                input@,
                pos as int,
                spec_array_header(bytes.len()),
                spec_concat(spec_byte_parts(bytes)),
            );
            assert(prefix_at(input@, pos as int, spec_array_header(N as nat)));
        }
    }
    if hdr.is_none() {
        return None;
    }
    let (count, start) = hdr.unwrap();
    if count != N {
        return None;
    }
    let mut out = [0u8; N];
    let mut cur: usize = start;
    let mut i: usize = 0;
    proof {
        assert forall|bytes: Seq<u8>| #[trigger]
            prefix_at(input@, pos as int, spec_byte_array(bytes)) && bytes.len() == N implies cur
            == start + spec_concat(spec_byte_parts(bytes).take(0)).len() && out@.take(0)
            == bytes.take(0) by {
            assert(spec_byte_parts(bytes).take(0) =~= Seq::<Seq<u8>>::empty());
            assert(out@.take(0) =~= bytes.take(0));
        }
    }
    while i < N
        invariant
            i <= N,
            pos < start <= cur <= input@.len(),
            total == input@.len(),
            forall|bytes: Seq<u8>| #[trigger]
                prefix_at(input@, pos as int, spec_byte_array(bytes)) && bytes.len() == N
                    ==> prefix_at(input@, start as int, spec_concat(spec_byte_parts(bytes))),
            forall|bytes: Seq<u8>| #[trigger]
                prefix_at(input@, pos as int, spec_byte_array(bytes)) && bytes.len() == N ==> cur
                    == start + spec_concat(spec_byte_parts(bytes).take(i as int)).len(),
            forall|bytes: Seq<u8>| #[trigger]
                prefix_at(input@, pos as int, spec_byte_array(bytes)) && bytes.len() == N
                    ==> out@.take(i as int) == bytes.take(i as int),
        decreases N - i,
    {
        let r = read_uint(input, cur);
        let ghost old_out = out@;
        let ghost old_cur = cur;
        proof {
            assert forall|bytes: Seq<u8>| #[trigger]
                prefix_at(input@, pos as int, spec_byte_array(bytes)) && bytes.len()
                    == N implies (r matches Some((v, next)) && v == bytes[i as int] && next == start
                + spec_concat(spec_byte_parts(bytes).take(i + 1)).len()) by {
                lemma_concat_part_at(input@, start as int, spec_byte_parts(bytes), i as int);
                assert(prefix_at(input@, old_cur as int, spec_uint(bytes[i as int] as u64)));
            }
        }
        match r {
            Some((v, next)) if v < 256 => {
                out[i] = v as u8;
                cur = next;
            },
            _ => {
                return None;
            },
        }
        proof {
            assert forall|bytes: Seq<u8>| #[trigger]
                prefix_at(input@, pos as int, spec_byte_array(bytes)) && bytes.len()
                    == N implies out@.take(i + 1) == bytes.take(i + 1) by {
                assert(old_out.take(i as int) == bytes.take(i as int));
                assert(out@.take(i + 1) =~= old_out.take(i as int).push(bytes[i as int]));
                assert(bytes.take(i + 1) =~= bytes.take(i as int).push(bytes[i as int]));
            }
        }
        i += 1;
    }
    proof {
        assert forall|bytes: Seq<u8>| #[trigger]
            prefix_at(input@, pos as int, spec_byte_array(bytes)) && bytes.len() == N implies out@
            == bytes && cur == pos + spec_byte_array(bytes).len() by {
            assert(spec_byte_parts(bytes).take(N as int) =~= spec_byte_parts(bytes));
            assert(out@.take(N as int) =~= out@);
            assert(bytes.take(N as int) =~= bytes);
        }
    }
    Some((out, cur))
}

} // verus!

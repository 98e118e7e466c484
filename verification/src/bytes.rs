//! Big-endian integers and small helpers on byte buffers.

use vstd::prelude::*;

verus! {

/// The two bytes of `n`, most significant first.
pub open spec fn spec_be16(n: u16) -> Seq<u8> {
    seq![(n / 256) as u8, (n % 256) as u8]
}

/// The four bytes of `n`, most significant first.
pub open spec fn spec_be32(n: u32) -> Seq<u8> {
    seq![
        (n / 16777216) as u8,
        ((n / 65536) % 256) as u8,
        ((n / 256) % 256) as u8,
        (n % 256) as u8,
    ]
}

/// The eight bytes of `n`, most significant first.
pub open spec fn spec_be64(n: u64) -> Seq<u8> {
    spec_be32((n / 4294967296) as u32) + spec_be32((n % 4294967296) as u32)
}

/// The number that two big-endian bytes stand for.
pub open spec fn spec_from_be16(b: Seq<u8>) -> u16
    recommends
        b.len() == 2,
{
    (b[0] as int * 256 + b[1] as int) as u16
}

/// The number that four big-endian bytes stand for.
pub open spec fn spec_from_be32(b: Seq<u8>) -> u32
    recommends
        b.len() == 4,
{
    (b[0] as int * 16777216 + b[1] as int * 65536 + b[2] as int * 256 + b[3] as int) as u32
}

/// The number that eight big-endian bytes stand for.
pub open spec fn spec_from_be64(b: Seq<u8>) -> u64
    recommends
        b.len() == 8,
{
    (spec_from_be32(b.subrange(0, 4)) as int * 4294967296 + spec_from_be32(
        b.subrange(4, 8),
    ) as int) as u64
}

/// Reading back what was written gives the number again.
pub proof fn lemma_be16_roundtrip(n: u16)
    ensures
        spec_be16(n).len() == 2,
        spec_from_be16(spec_be16(n)) == n,
{
}

/// Reading back what was written gives the number again.
pub proof fn lemma_be32_roundtrip(n: u32)
    ensures
        spec_be32(n).len() == 4,
        spec_from_be32(spec_be32(n)) == n,
{
}

/// Reading back what was written gives the number again.
pub proof fn lemma_be64_roundtrip(n: u64)
    ensures
        spec_be64(n).len() == 8,
        spec_from_be64(spec_be64(n)) == n,
{
    let hi = (n / 4294967296) as u32;
    let lo = (n % 4294967296) as u32;
    lemma_be32_roundtrip(hi);
    lemma_be32_roundtrip(lo);
    assert(spec_be64(n).subrange(0, 4) =~= spec_be32(hi));
    assert(spec_be64(n).subrange(4, 8) =~= spec_be32(lo));
}

/// Appends the bytes of `src` to `out`.
pub fn extend_bytes(out: &mut Vec<u8>, src: &[u8])
    ensures
        final(out)@ == old(out)@ + src@,
{
    let mut i: usize = 0;
    while i < src.len()
        invariant
            i <= src@.len(),
            out@ == old(out)@ + src@.subrange(0, i as int),
        decreases src@.len() - i,
    {
        out.push(src[i]);
        i += 1;
    }
    assert(src@.subrange(0, src@.len() as int) =~= src@);
}

/// Copies the bytes of `src` from index `from` up to `to` into a new vector.
pub fn copy_range(src: &[u8], from: usize, to: usize) -> (out: Vec<u8>)
    requires
        from <= to <= src@.len(),
    ensures
        out@ == src@.subrange(from as int, to as int),
{
    let mut out: Vec<u8> = Vec::new();
    let mut i: usize = from;
    while i < to
        invariant
            from <= i <= to <= src@.len(),
            out@ == src@.subrange(from as int, i as int),
        decreases to - i,
    {
        out.push(src[i]);
        i += 1;
    }
    out
}

/// Appends `n` as two big-endian bytes.
pub fn push_be16(out: &mut Vec<u8>, n: u16)
    ensures
        final(out)@ == old(out)@ + spec_be16(n),
{
    out.push((n / 256) as u8);
    out.push((n % 256) as u8);
    assert(out@ =~= old(out)@ + spec_be16(n));
}

/// Appends `n` as four big-endian bytes.
pub fn push_be32(out: &mut Vec<u8>, n: u32)
    ensures
        final(out)@ == old(out)@ + spec_be32(n),
{
    out.push((n / 16777216) as u8);
    out.push(((n / 65536) % 256) as u8);
    out.push(((n / 256) % 256) as u8);
    out.push((n % 256) as u8);
    assert(out@ =~= old(out)@ + spec_be32(n));
}

/// Appends `n` as eight big-endian bytes.
pub fn push_be64(out: &mut Vec<u8>, n: u64)
    ensures
        final(out)@ == old(out)@ + spec_be64(n),
{
    let ghost before = out@;
    push_be32(out, (n / 4294967296) as u32);
    push_be32(out, (n % 4294967296) as u32);
    assert(out@ =~= before + spec_be64(n));
}

/// Reads two big-endian bytes at `pos`.
pub fn read_be16(src: &[u8], pos: usize) -> (n: u16)
    requires
        pos + 2 <= src@.len(),
    ensures
        n == spec_from_be16(src@.subrange(pos as int, pos + 2)),
{
    (src[pos] as u16) * 256 + (src[pos + 1] as u16)
}

/// Reads four big-endian bytes at `pos`.
pub fn read_be32(src: &[u8], pos: usize) -> (n: u32)
    requires
        pos + 4 <= src@.len(),
    ensures
        n == spec_from_be32(src@.subrange(pos as int, pos + 4)),
{
    (src[pos] as u32) * 16777216 + (src[pos + 1] as u32) * 65536 + (src[pos + 2] as u32) * 256 + (
    src[pos + 3] as u32)
}

/// Reads eight big-endian bytes at `pos`.
pub fn read_be64(src: &[u8], pos: usize) -> (n: u64)
    requires
        pos + 8 <= src@.len(),
    ensures
        n == spec_from_be64(src@.subrange(pos as int, pos + 8)),
{
    let len = src.len();
    let hi = read_be32(src, pos);
    let lo = read_be32(src, pos + 4);
    proof {
        let b = src@.subrange(pos as int, pos + 8);
        assert(b.subrange(0, 4) =~= src@.subrange(pos as int, pos + 4));
        assert(b.subrange(4, 8) =~= src@.subrange(pos + 4, pos + 8));
    }
    (hi as u64) * 4294967296 + (lo as u64)
}

/// Compares two byte strings.
pub fn bytes_eq(a: &[u8], b: &[u8]) -> (eq: bool)
    ensures
        eq == (a@ == b@),
{
    if a.len() != b.len() {
        return false;
    }
    let mut i: usize = 0;
    while i < a.len()
        invariant
            i <= a@.len(),
            a@.len() == b@.len(),
            forall|j: int| 0 <= j < i ==> a@[j] == b@[j],
        decreases a@.len() - i,
    {
        if a[i] != b[i] {
            return false;
        }
        i += 1;
    }
    assert(a@ =~= b@);
    true
}

} // verus!

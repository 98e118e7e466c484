//! Facts about pieces of a sequence: what stands at a position, and how joined
//! parts lie in their join.

use vstd::prelude::*;

verus! {

/// Whether `pat` stands in `input` at position `pos`.
pub open spec fn prefix_at<T>(input: Seq<T>, pos: int, pat: Seq<T>) -> bool {
    &&& 0 <= pos
    &&& pos + pat.len() <= input.len()
    &&& input.subrange(pos, pos + pat.len()) == pat
}

/// A concatenation stands at a position exactly when its first part stands there
/// and its second part right behind.
pub proof fn lemma_prefix_split<T>(input: Seq<T>, pos: int, a: Seq<T>, b: Seq<T>)
    ensures
        prefix_at(input, pos, a + b) == (prefix_at(input, pos, a) && prefix_at(
            input,
            pos + a.len(),
            b,
        )),
{
    if 0 <= pos && pos + a.len() + b.len() <= input.len() {
        let whole = input.subrange(pos, pos + a.len() + b.len());
        let left = input.subrange(pos, pos + a.len());
        let right = input.subrange(pos + a.len(), pos + a.len() + b.len());
        assert(whole =~= left + right);
        if whole == a + b {
            assert(left =~= (a + b).subrange(0, a.len() as int));
            assert(right =~= (a + b).subrange(a.len() as int, (a + b).len() as int));
            assert(left =~= a);
            assert(right =~= b);
        }
    }
}

/// The parts of a sequence, joined in order.
pub open spec fn spec_concat<T>(parts: Seq<Seq<T>>) -> Seq<T>
    decreases parts.len(),
{
    if parts.len() == 0 {
        Seq::empty()
    } else {
        spec_concat(parts.drop_last()) + parts.last()
    }
}

/// Joining the first `k + 1` parts is joining the first `k` and adding the next.
pub proof fn lemma_concat_take<T>(parts: Seq<Seq<T>>, k: int)
    requires
        0 <= k < parts.len(),
    ensures
        spec_concat(parts.take(k + 1)) == spec_concat(parts.take(k)) + parts[k],
{
    assert(parts.take(k + 1).drop_last() =~= parts.take(k));
}

/// The join of the first `k` parts opens the join of all of them.
pub proof fn lemma_concat_prefix<T>(parts: Seq<Seq<T>>, k: int)
    requires
        0 <= k <= parts.len(),
    ensures
        spec_concat(parts.take(k)).len() <= spec_concat(parts).len(),
        spec_concat(parts).subrange(0, spec_concat(parts.take(k)).len() as int) == spec_concat(
            parts.take(k),
        ),
    decreases parts.len() - k,
{
    if k == parts.len() {
        assert(parts.take(k) =~= parts);
        assert(spec_concat(parts).subrange(0, spec_concat(parts).len() as int) =~= spec_concat(
            parts,
        ));
    } else {
        lemma_concat_prefix(parts, k + 1);
        lemma_concat_take(parts, k);
        let a = spec_concat(parts.take(k));
        let b = spec_concat(parts.take(k + 1));
        let all = spec_concat(parts);
        assert(all.subrange(0, a.len() as int) =~= all.subrange(0, b.len() as int).subrange(
            0,
            a.len() as int,
        ));
        assert(b.subrange(0, a.len() as int) =~= a);
    }
}

/// If a join stands at a position, each part stands at its own offset.
pub proof fn lemma_concat_part_at<T>(input: Seq<T>, pos: int, parts: Seq<Seq<T>>, k: int)
    requires
        0 <= k < parts.len(),
        prefix_at(input, pos, spec_concat(parts)),
    ensures
        prefix_at(input, pos + spec_concat(parts.take(k)).len(), parts[k]),
        spec_concat(parts.take(k + 1)) == spec_concat(parts.take(k)) + parts[k],
{
    lemma_concat_prefix(parts, k + 1);
    lemma_concat_take(parts, k);
    let b = spec_concat(parts.take(k + 1));
    let all = spec_concat(parts);
    assert(input.subrange(pos, pos + b.len()) =~= input.subrange(pos, pos + all.len()).subrange(
        0,
        b.len() as int,
    ));
    assert(prefix_at(input, pos, b));
    lemma_prefix_split(input, pos, spec_concat(parts.take(k)), parts[k]);
}

} // verus!

//! Byte sequences made of parts.
use vstd::prelude::*;

verus! {

/// `part` stands at `pos` of `s`.
pub open spec fn occurs(s: Seq<u8>, pos: int, part: Seq<u8>) -> bool {
    0 <= pos && pos + part.len() <= s.len() && s.subrange(pos, pos + part.len()) == part
}

/// The parts one behind the other.
pub open spec fn concat(parts: Seq<Seq<u8>>) -> Seq<u8>
    decreases parts.len(),
{
    if parts.len() == 0 {
        Seq::empty()
    } else {
        concat(parts.drop_last()) + parts.last()
    }
}

/// Where two parts stand one behind the other, each of them stands at its place.
pub proof fn lemma_occurs_split(s: Seq<u8>, pos: int, a: Seq<u8>, b: Seq<u8>)
    requires
        occurs(s, pos, a + b),
    ensures
        occurs(s, pos, a),
        occurs(s, pos + a.len(), b),
{
    let whole = s.subrange(pos, pos + (a + b).len());
    assert(s.subrange(pos, pos + a.len()) =~= whole.take(a.len() as int));
    assert(whole.take(a.len() as int) =~= a);
    assert(s.subrange(pos + a.len(), pos + a.len() + b.len()) =~= whole.skip(a.len() as int));
    assert(whole.skip(a.len() as int) =~= b);
}

/// A whole stands at its own front.
pub proof fn lemma_occurs_whole(s: Seq<u8>)
    ensures
        occurs(s, 0, s),
{
    assert(s.subrange(0, s.len() as int) =~= s);
}

/// What stands in a part stands in the whole.
pub proof fn lemma_occurs_inside(s: Seq<u8>, pos: int, part: Seq<u8>, at: int, inner: Seq<u8>)
    requires
        occurs(s, pos, part),
        occurs(part, at, inner),
    ensures
        occurs(s, pos + at, inner),
{
    assert(s.subrange(pos + at, pos + at + inner.len()) =~= s.subrange(
        pos,
        pos + part.len(),
    ).subrange(at, at + inner.len()));
}

pub proof fn lemma_concat_none(parts: Seq<Seq<u8>>)
    ensures
        concat(parts.take(0)) == Seq::<u8>::empty(),
{
    assert(parts.take(0) =~= Seq::<Seq<u8>>::empty());
}

pub proof fn lemma_concat_next(parts: Seq<Seq<u8>>, k: int)
    requires
        0 <= k < parts.len(),
    ensures
        concat(parts.take(k + 1)) == concat(parts.take(k)) + parts[k],
{
    assert(parts.take(k + 1).drop_last() =~= parts.take(k));
}

pub proof fn lemma_concat_all(parts: Seq<Seq<u8>>)
    ensures
        concat(parts.take(parts.len() as int)) == concat(parts),
{
    assert(parts.take(parts.len() as int) =~= parts);
}

pub proof fn lemma_concat_prefix(parts: Seq<Seq<u8>>, k: int)
    requires
        0 <= k <= parts.len(),
    ensures
        occurs(concat(parts), 0, concat(parts.take(k))),
    decreases parts.len() - k,
{
    if k == parts.len() {
        lemma_concat_all(parts);
        lemma_occurs_whole(concat(parts));
    } else {
        lemma_concat_prefix(parts, k + 1);
        lemma_concat_next(parts, k);
        lemma_occurs_split(concat(parts), 0, concat(parts.take(k)), parts[k]);
    }
}

/// Each part of a sequence of parts stands behind those before it.
pub proof fn lemma_concat_part(s: Seq<u8>, pos: int, parts: Seq<Seq<u8>>, k: int)
    requires
        occurs(s, pos, concat(parts)),
        0 <= k < parts.len(),
    ensures
        occurs(s, pos + concat(parts.take(k)).len(), parts[k]),
{
    lemma_concat_prefix(parts, k + 1);
    lemma_occurs_inside(s, pos, concat(parts), 0, concat(parts.take(k + 1)));
    lemma_concat_next(parts, k);
    lemma_occurs_split(s, pos, concat(parts.take(k)), parts[k]);
}

/// Parts of one length make a whole of as many lengths.
pub proof fn lemma_concat_len(parts: Seq<Seq<u8>>, size: nat)
    requires
        forall|i: int| 0 <= i < parts.len() ==> (#[trigger] parts[i]).len() == size,
    ensures
        concat(parts).len() == size * parts.len(),
    decreases parts.len(),
{
    if parts.len() > 0 {
        let front = parts.drop_last();
        assert forall|i: int| 0 <= i < front.len() implies (#[trigger] front[i]).len() == size by {
            assert(front[i] == parts[i]);
        }
        lemma_concat_len(front, size);
        assert(size * parts.len() == size * (parts.len() - 1) + size) by (nonlinear_arith)
            requires
                parts.len() >= 1,
        ;
    } else {
        assert(size * parts.len() == 0) by (nonlinear_arith)
            requires
                parts.len() == 0,
        ;
    }
}

} // verus!

//! Where the lists of an index file stand.
use vstd::prelude::*;

use crate::error::IndexError;
use crate::ivf_lists;
use crate::wire;

verus! {

/// Where the payload of list `i` starts when the first one starts at `data_start`.
pub open spec fn list_offset(payloads: Seq<Seq<u8>>, data_start: int, i: int) -> int {
    data_start + wire::concat(payloads.take(i)).len()
}

/// Every payload starts where a signed 64-bit number can say so.
pub open spec fn offsets_fit(payloads: Seq<Seq<u8>>, data_start: int) -> bool {
    forall|i: int|
        0 <= i < payloads.len() ==> #[trigger] list_offset(payloads, data_start, i) <= i64::MAX
}

/// Payload `i` is the first one that starts too far behind.
pub open spec fn is_first_too_far(payloads: Seq<Seq<u8>>, data_start: int, i: int) -> bool {
    &&& 0 <= i < payloads.len()
    &&& list_offset(payloads, data_start, i) > i64::MAX
    &&& forall|k: int| 0 <= k < i ==> #[trigger] list_offset(payloads, data_start, k) <= i64::MAX
}

/// The first start that a signed 64-bit number cannot say.
pub open spec fn offset_exceeds(payloads: Seq<Seq<u8>>, data_start: int, e: IndexError) -> bool {
    exists|i: int| #[trigger]
        is_first_too_far(payloads, data_start, i) && e == IndexError::OffsetExceedsI64 {
            at: if list_offset(payloads, data_start, i) <= u64::MAX {
                list_offset(payloads, data_start, i) as u64
            } else {
                u64::MAX
            },
        }
}

/// The starts of the payloads that stand one behind the other from `data_start` on.
pub fn place_lists(payloads: &Vec<Vec<u8>>, data_start: u64) -> (r: Result<Vec<i64>, IndexError>)
    ensures
        ({
            let all = ivf_lists::byte_lists(payloads@);
            match r {
                Ok(offsets) => offsets@.len() == all.len() && forall|i: int|
                    0 <= i < all.len() ==> #[trigger] offsets@[i] == list_offset(
                        all,
                        data_start as int,
                        i,
                    ),
                Err(e) => !offsets_fit(all, data_start as int) && offset_exceeds(
                    all,
                    data_start as int,
                    e,
                ),
            }
        }),
{
    let ghost all = ivf_lists::byte_lists(payloads@);
    let mut offsets: Vec<i64> = Vec::new();
    let mut current: u128 = data_start as u128;
    proof {
        wire::lemma_concat_none(all);
    }
    for i in 0..payloads.len()
        invariant
            all == ivf_lists::byte_lists(payloads@),
            offsets@.len() == i,
            current == list_offset(all, data_start as int, i as int),
            i > 0 ==> current <= i64::MAX + usize::MAX,
            i == 0 ==> current <= u64::MAX,
            forall|k: int|
                0 <= k < i ==> #[trigger] offsets@[k] == list_offset(all, data_start as int, k),
    {
        if current > i64::MAX as u128 {
            assert(is_first_too_far(all, data_start as int, i as int)) by {
                assert forall|k: int| 0 <= k < i implies #[trigger] list_offset(
                    all,
                    data_start as int,
                    k,
                ) <= i64::MAX by {
                    assert(offsets@[k] == list_offset(all, data_start as int, k));
                }
            }
            let at: u64 = if current > u64::MAX as u128 {
                u64::MAX
            } else {
                current as u64
            };
            return Err(IndexError::OffsetExceedsI64 { at });
        }
        offsets.push(current as i64);
        proof {
            wire::lemma_concat_next(all, i as int);
            assert(all[i as int] == payloads@[i as int]@);
        }
        current = current + payloads[i].len() as u128;
    }
    Ok(offsets)
}

/// Appends the payloads one behind the other.
pub fn append_lists(out: &mut Vec<u8>, payloads: &Vec<Vec<u8>>)
    ensures
        final(out)@ == old(out)@ + wire::concat(ivf_lists::byte_lists(payloads@)),
{
    let ghost all = ivf_lists::byte_lists(payloads@);
    let ghost start = out@;
    proof {
        wire::lemma_concat_none(all);
        assert(start + Seq::<u8>::empty() =~= start);
    }
    for i in 0..payloads.len()
        invariant
            all == ivf_lists::byte_lists(payloads@),
            out@ == start + wire::concat(all.take(i as int)),
    {
        append_bytes(out, &payloads[i]);
        proof {
            wire::lemma_concat_next(all, i as int);
            assert(all[i as int] == payloads@[i as int]@);
            assert(out@ =~= start + wire::concat(all.take(i + 1)));
        }
    }
    proof {
        wire::lemma_concat_all(all);
    }
}

/// Appends bytes.
pub fn append_bytes(out: &mut Vec<u8>, bytes: &Vec<u8>)
    ensures
        final(out)@ == old(out)@ + bytes@,
{
    let ghost start = out@;
    for i in 0..bytes.len()
        invariant
            out@ == start + bytes@.take(i as int),
    {
        out.push(bytes[i]);
        assert(out@ =~= start + bytes@.take(i + 1));
    }
    assert(bytes@.take(bytes@.len() as int) =~= bytes@);
}

pub open spec fn zeros(n: nat) -> Seq<u8> {
    Seq::new(n, |i: int| 0u8)
}

/// Appends `n` zeros.
pub fn append_zeros(out: &mut Vec<u8>, n: usize)
    ensures
        final(out)@ == old(out)@ + zeros(n as nat),
{
    let ghost start = out@;
    for i in 0..n
        invariant
            out@ == start + zeros(i as nat),
    {
        out.push(0);
        assert(out@ =~= start + zeros((i + 1) as nat));
    }
}

/// A part of the bytes.
pub fn part_of(bytes: &[u8], from: usize, to: usize) -> (r: &[u8])
    requires
        from <= to <= bytes@.len(),
    ensures
        r@ == bytes@.subrange(from as int, to as int),
{
    vstd::slice::slice_subrange(bytes, from, to)
}

/// A copy of the bytes.
pub fn copied(bytes: &[u8]) -> (r: Vec<u8>)
    ensures
        r@ == bytes@,
{
    let mut r: Vec<u8> = Vec::new();
    for i in 0..bytes.len()
        invariant
            r@ == bytes@.take(i as int),
    {
        r.push(bytes[i]);
        assert(r@ =~= bytes@.take(i + 1));
    }
    assert(bytes@.take(bytes@.len() as int) =~= bytes@);
    r
}

} // verus!

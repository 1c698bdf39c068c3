//! Checks that the readers and writers of all index files share.
use vstd::prelude::*;

use crate::error::{Field, IndexError};
use crate::float_bits;
use crate::little_endian;

verus! {

/// The largest number of elements in a section of an index file.
pub const MAX_SECTION_ELEMENTS: usize = 0x4000_0000;

/// The first objection to a request for `k` rows of each of `nq` queries, if there is one.
pub open spec fn search_refused(
    queries_len: nat,
    nq: usize,
    d: usize,
    k: usize,
    nprobe: usize,
) -> Option<IndexError> {
    if nq == 0 {
        Some(IndexError::NqZero)
    } else if nq * d > usize::MAX {
        Some(IndexError::QuerySizeOverflow)
    } else if queries_len != nq * d {
        Some(
            IndexError::QueriesLength {
                len: queries_len as usize,
                expected: (nq * d) as usize,
            },
        )
    } else if k == 0 {
        Some(IndexError::KZero)
    } else if nprobe == 0 {
        Some(IndexError::NprobeZero)
    } else {
        None
    }
}

pub fn validate_search_inputs(
    queries_len: usize,
    nq: usize,
    d: usize,
    k: usize,
    nprobe: usize,
) -> (r: Result<(), IndexError>)
    ensures
        match r {
            Ok(_) => search_refused(queries_len as nat, nq, d, k, nprobe) is None,
            Err(e) => search_refused(queries_len as nat, nq, d, k, nprobe) == Some(e),
        },
{
    if nq == 0 {
        return Err(IndexError::NqZero);
    }
    let expected: usize = match nq.checked_mul(d) {
        Some(v) => v,
        None => {
            return Err(IndexError::QuerySizeOverflow);
        },
    };
    if queries_len != expected {
        return Err(IndexError::QueriesLength { len: queries_len, expected });
    }
    if k == 0 {
        return Err(IndexError::KZero);
    }
    if nprobe == 0 {
        return Err(IndexError::NprobeZero);
    }
    Ok(())
}

/// The first objection to a request for `k` rows of one query, if there is one.
pub open spec fn query_refused(query_len: usize, d: usize, k: usize, nprobe: usize) -> Option<
    IndexError,
> {
    if query_len != d {
        Some(IndexError::QueryLength { len: query_len, expected: d })
    } else if k == 0 {
        Some(IndexError::KZero)
    } else if nprobe == 0 {
        Some(IndexError::NprobeZero)
    } else {
        None
    }
}

pub fn validate_query_inputs(query_len: usize, d: usize, k: usize, nprobe: usize) -> (r: Result<
    (),
    IndexError,
>)
    ensures
        r == (match query_refused(query_len, d, k, nprobe) {
            Some(e) => Err(e),
            None => Ok(()),
        }),
{
    if query_len != d {
        return Err(IndexError::QueryLength { len: query_len, expected: d });
    }
    if k == 0 {
        return Err(IndexError::KZero);
    }
    if nprobe == 0 {
        return Err(IndexError::NprobeZero);
    }
    Ok(())
}

pub open spec fn all_zero(bytes: Seq<u8>) -> bool {
    forall|i: int| 0 <= i < bytes.len() ==> #[trigger] bytes[i] == 0
}

/// Refuses reserved bytes that are not zero.
pub fn validate_reserved_zero(bytes: &[u8]) -> (r: Result<(), IndexError>)
    ensures
        match r {
            Ok(_) => all_zero(bytes@),
            Err(e) => !all_zero(bytes@) && e == IndexError::ReservedBytes,
        },
{
    for i in 0..bytes.len()
        invariant
            forall|k: int| 0 <= k < i ==> #[trigger] bytes@[k] == 0,
    {
        if bytes[i] != 0 {
            return Err(IndexError::ReservedBytes);
        }
    }
    Ok(())
}

/// A header field that must be positive.
pub fn validate_positive_i32(val: i32, field: Field) -> (r: Result<usize, IndexError>)
    ensures
        match r {
            Ok(v) => val > 0 && v == val,
            Err(e) => val <= 0 && e == IndexError::HeaderNotPositive { field, found: val },
        },
{
    if val <= 0 {
        return Err(IndexError::HeaderNotPositive { field, found: val });
    }
    Ok(val as usize)
}

pub fn usize_to_i32(value: usize, field: Field) -> (r: Result<i32, IndexError>)
    ensures
        match r {
            Ok(v) => v == value,
            Err(e) => value > i32::MAX && e == IndexError::LengthExceedsI32 { field, value },
        },
{
    if value > i32::MAX as usize {
        return Err(IndexError::LengthExceedsI32 { field, value });
    }
    Ok(value as i32)
}

pub fn usize_to_i64(value: usize, field: Field) -> (r: Result<i64, IndexError>)
    ensures
        match r {
            Ok(v) => v == value,
            Err(e) => value > i64::MAX && e == IndexError::LengthExceedsI64 { field, value },
        },
{
    if value as u64 > i64::MAX as u64 {
        return Err(IndexError::LengthExceedsI64 { field, value });
    }
    Ok(value as i64)
}

pub fn u64_to_i64(value: u64) -> (r: Result<i64, IndexError>)
    ensures
        match r {
            Ok(v) => v == value,
            Err(e) => value > i64::MAX && e == IndexError::OffsetExceedsI64 { at: value },
        },
{
    if value > i64::MAX as u64 {
        return Err(IndexError::OffsetExceedsI64 { at: value });
    }
    Ok(value as i64)
}

/// The size of a section, or why there can be no such section.
pub open spec fn section_size(a: usize, b: usize) -> Result<usize, IndexError> {
    if a * b > usize::MAX {
        Err(IndexError::SectionSizeOverflow)
    } else if a * b > MAX_SECTION_ELEMENTS {
        Err(IndexError::SectionTooLarge { size: (a * b) as usize })
    } else {
        Ok((a * b) as usize)
    }
}

pub fn checked_section_size(a: usize, b: usize) -> (r: Result<usize, IndexError>)
    ensures
        r == section_size(a, b),
{
    let size: usize = match a.checked_mul(b) {
        Some(v) => v,
        None => {
            return Err(IndexError::SectionSizeOverflow);
        },
    };
    if size > MAX_SECTION_ELEMENTS {
        return Err(IndexError::SectionTooLarge { size });
    }
    Ok(size)
}

pub fn checked_list_offset(offset: i64, list_id: usize) -> (r: Result<u64, IndexError>)
    ensures
        match r {
            Ok(v) => v == offset,
            Err(e) => offset < 0 && e == IndexError::NegativeListOffset { offset, list_id },
        },
{
    if offset < 0 {
        return Err(IndexError::NegativeListOffset { offset, list_id });
    }
    Ok(offset as u64)
}

pub fn checked_list_bytes(count: usize, bytes_per_entry: usize) -> (r: Result<usize, IndexError>)
    ensures
        match r {
            Ok(v) => v == count * bytes_per_entry,
            Err(e) => count * bytes_per_entry > usize::MAX && e == IndexError::ListBytesOverflow,
        },
{
    match count.checked_mul(bytes_per_entry) {
        Some(v) => Ok(v),
        None => Err(IndexError::ListBytesOverflow),
    }
}

/// The 32-bit patterns that the bytes hold.
pub fn bytes_to_f32_vec(bytes: &[u8]) -> (r: Result<Vec<u32>, IndexError>)
    ensures
        match r {
            Ok(values) => bytes@.len() % 4 == 0 && values@ == little_endian::u32_seq_of(bytes@),
            Err(e) => bytes@.len() % 4 != 0 && e == IndexError::Unaligned,
        },
{
    if bytes.len() % 4 != 0 {
        return Err(IndexError::Unaligned);
    }
    Ok(patterns_of(bytes))
}

/// As many 32-bit patterns as fit into the bytes.
pub fn patterns_of(bytes: &[u8]) -> (r: Vec<u32>)
    ensures
        r@ == little_endian::u32_seq_of(bytes@),
{
    let mut values: Vec<u32> = Vec::new();
    let n: usize = bytes.len() / 4;
    let total: usize = bytes.len();
    for i in 0..n
        invariant
            n == bytes@.len() / 4,
            total == bytes@.len(),
            values@ == little_endian::u32_seq_of(bytes@).take(i as int),
    {
        values.push(little_endian::read_u32_le(bytes, 4 * i));
        assert(values@ =~= little_endian::u32_seq_of(bytes@).take(i + 1));
    }
    assert(values@ =~= little_endian::u32_seq_of(bytes@));
    values
}

/// `at` is the first place with an infinite value or a NaN.
pub open spec fn first_not_finite(values: Seq<u32>, at: usize) -> bool {
    &&& at < values.len()
    &&& !float_bits::is_finite(values[at as int])
    &&& float_bits::all_finite(values.take(at as int))
}

/// Refuses values that are infinite or NaN.
pub fn validate_finite_f32_values(values: &[u32]) -> (r: Result<(), IndexError>)
    ensures
        match r {
            Ok(_) => float_bits::all_finite(values@),
            Err(e) => e matches IndexError::NotFinite { place } && first_not_finite(values@, place),
        },
{
    for i in 0..values.len()
        invariant
            forall|k: int| 0 <= k < i ==> float_bits::is_finite(#[trigger] values@[k]),
    {
        if !float_bits::check_finite(values[i]) {
            return Err(IndexError::NotFinite { place: i });
        }
    }
    Ok(())
}

/// The 32-bit patterns that the bytes hold, if all of them are finite.
pub fn bytes_to_f32_vec_checked(bytes: &[u8]) -> (r: Result<Vec<u32>, IndexError>)
    ensures
        match r {
            Ok(values) => bytes@.len() % 4 == 0 && values@ == little_endian::u32_seq_of(bytes@)
                && float_bits::all_finite(values@),
            Err(e) => (bytes@.len() % 4 != 0 && e == IndexError::Unaligned) || (bytes@.len() % 4
                == 0 && (e matches IndexError::NotFinite { place } && first_not_finite(
                little_endian::u32_seq_of(bytes@),
                place,
            ))),
        },
{
    let values: Vec<u32> = match bytes_to_f32_vec(bytes) {
        Ok(v) => v,
        Err(e) => {
            return Err(e);
        },
    };
    match validate_finite_f32_values(values.as_slice()) {
        Ok(_) => Ok(values),
        Err(e) => Err(e),
    }
}

} // verus!

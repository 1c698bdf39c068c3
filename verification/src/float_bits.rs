//! IEEE-754 single precision values as their bit patterns.
//!
//! Vectors, centroids and distances travel through this library as `u32` bit patterns. What the
//! library needs of them (finiteness and two orders) is a matter of integers: a pattern is a sign
//! and a magnitude, and magnitudes order as the values do.
use vstd::prelude::*;

verus! {

/// The pattern of the largest finite value.
pub const MAX_BITS: u32 = 0x7f7f_ffff;

/// The pattern of positive infinity.
pub const INFINITY_BITS: u32 = 0x7f80_0000;

pub open spec fn is_negative(bits: u32) -> bool {
    bits >= 0x8000_0000
}

/// The pattern without its sign: exponent and fraction.
pub open spec fn magnitude(bits: u32) -> int {
    if is_negative(bits) {
        bits - 0x8000_0000
    } else {
        bits as int
    }
}

pub open spec fn is_finite(bits: u32) -> bool {
    magnitude(bits) < INFINITY_BITS
}

pub open spec fn is_nan(bits: u32) -> bool {
    magnitude(bits) > INFINITY_BITS
}

/// The place of a value that is no NaN on the real line: both zeros share a place.
pub open spec fn value_key(bits: u32) -> int {
    if is_negative(bits) {
        -magnitude(bits)
    } else {
        magnitude(bits)
    }
}

/// The place of a pattern in the total order of IEEE-754: negative NaN, negative values, negative
/// zero, positive zero, positive values, positive NaN.
pub open spec fn total_key(bits: u32) -> int {
    if is_negative(bits) {
        -magnitude(bits) - 1
    } else {
        magnitude(bits)
    }
}

/// `a < b` as floating point compares: false as soon as one side is a NaN.
pub open spec fn lt(a: u32, b: u32) -> bool {
    !is_nan(a) && !is_nan(b) && value_key(a) < value_key(b)
}

/// `a == b` as floating point compares: false as soon as one side is a NaN, and true of the two
/// zeros.
pub open spec fn eq(a: u32, b: u32) -> bool {
    !is_nan(a) && !is_nan(b) && value_key(a) == value_key(b)
}

/// The sequences are as long as each other and equal value by value.
pub open spec fn same_values(a: Seq<u32>, b: Seq<u32>) -> bool {
    a.len() == b.len() && forall|i: int| 0 <= i < a.len() ==> #[trigger] eq(a[i], b[i])
}

/// No pattern of the sequence is infinite or a NaN.
pub open spec fn all_finite(values: Seq<u32>) -> bool {
    forall|i: int| 0 <= i < values.len() ==> is_finite(#[trigger] values[i])
}

/// Tells whether the pattern stands for a finite value.
pub fn check_finite(bits: u32) -> (r: bool)
    ensures
        r == is_finite(bits),
{
    if bits >= 0x8000_0000 {
        bits - 0x8000_0000 < INFINITY_BITS
    } else {
        bits < INFINITY_BITS
    }
}

/// Tells whether the pattern stands for a NaN.
pub fn check_nan(bits: u32) -> (r: bool)
    ensures
        r == is_nan(bits),
{
    if bits >= 0x8000_0000 {
        bits - 0x8000_0000 > INFINITY_BITS
    } else {
        bits > INFINITY_BITS
    }
}

/// Compares two patterns as floating point does.
pub fn less_than(a: u32, b: u32) -> (r: bool)
    ensures
        r == lt(a, b),
{
    if check_nan(a) || check_nan(b) {
        return false;
    }
    if a >= 0x8000_0000 {
        if b >= 0x8000_0000 {
            a > b
        } else {
            a > 0x8000_0000 || b > 0
        }
    } else {
        b < 0x8000_0000 && a < b
    }
}

/// Tells whether two patterns stand for equal values.
pub fn equal(a: u32, b: u32) -> (r: bool)
    ensures
        r == eq(a, b),
{
    !check_nan(a) && !check_nan(b) && (a == b || (a == 0 && b == 0x8000_0000) || (a == 0x8000_0000
        && b == 0))
}

/// Tells whether two sequences hold equal values.
pub fn equal_values(a: &[u32], b: &[u32]) -> (r: bool)
    ensures
        r == same_values(a@, b@),
{
    if a.len() != b.len() {
        return false;
    }
    for i in 0..a.len()
        invariant
            a@.len() == b@.len(),
            forall|k: int| 0 <= k < i ==> #[trigger] eq(a@[k], b@[k]),
    {
        if !equal(a[i], b[i]) {
            assert(!eq(a@[i as int], b@[i as int]));
            return false;
        }
    }
    true
}

/// Compares two patterns in the total order.
pub fn total_less_than(a: u32, b: u32) -> (r: bool)
    ensures
        r == (total_key(a) < total_key(b)),
{
    if a >= 0x8000_0000 {
        b < 0x8000_0000 || a > b
    } else {
        b < 0x8000_0000 && a < b
    }
}

/// A double precision pattern without its sign.
pub open spec fn double_magnitude(bits: u64) -> int {
    if bits >= 0x8000_0000_0000_0000 {
        bits - 0x8000_0000_0000_0000
    } else {
        bits as int
    }
}

pub open spec fn double_is_nan(bits: u64) -> bool {
    double_magnitude(bits) > 0x7ff0_0000_0000_0000
}

pub open spec fn double_is_finite(bits: u64) -> bool {
    double_magnitude(bits) < 0x7ff0_0000_0000_0000
}

/// Tells whether the double precision pattern stands for a finite value.
pub fn check_double_finite(bits: u64) -> (r: bool)
    ensures
        r == double_is_finite(bits),
{
    if bits >= 0x8000_0000_0000_0000 {
        bits - 0x8000_0000_0000_0000 < 0x7ff0_0000_0000_0000
    } else {
        bits < 0x7ff0_0000_0000_0000
    }
}

/// The place of a double precision value that is no NaN on the real line.
pub open spec fn double_value_key(bits: u64) -> int {
    if bits >= 0x8000_0000_0000_0000 {
        -double_magnitude(bits)
    } else {
        double_magnitude(bits)
    }
}

/// The place of a double precision pattern in the total order of IEEE-754.
pub open spec fn double_total_key(bits: u64) -> int {
    if bits >= 0x8000_0000_0000_0000 {
        -double_magnitude(bits) - 1
    } else {
        double_magnitude(bits)
    }
}

/// `a <= b` as floating point compares double precision values.
pub open spec fn double_le(a: u64, b: u64) -> bool {
    !double_is_nan(a) && !double_is_nan(b) && double_value_key(a) <= double_value_key(b)
}

/// Compares two double precision patterns as floating point does.
pub fn double_at_most(a: u64, b: u64) -> (r: bool)
    ensures
        r == double_le(a, b),
{
    let a_size: u64 = if a >= 0x8000_0000_0000_0000 {
        a - 0x8000_0000_0000_0000
    } else {
        a
    };
    let b_size: u64 = if b >= 0x8000_0000_0000_0000 {
        b - 0x8000_0000_0000_0000
    } else {
        b
    };
    if a_size > 0x7ff0_0000_0000_0000 || b_size > 0x7ff0_0000_0000_0000 {
        return false;
    }
    if a >= 0x8000_0000_0000_0000 {
        b < 0x8000_0000_0000_0000 || b_size <= a_size
    } else {
        if b >= 0x8000_0000_0000_0000 {
            a == 0 && b_size == 0
        } else {
            a <= b
        }
    }
}

/// Compares two double precision patterns in the total order.
pub fn double_total_less_than(a: u64, b: u64) -> (r: bool)
    ensures
        r == (double_total_key(a) < double_total_key(b)),
{
    if a >= 0x8000_0000_0000_0000 {
        b < 0x8000_0000_0000_0000 || a > b
    } else {
        b < 0x8000_0000_0000_0000 && a < b
    }
}

/// On values that are no NaN the total order refines the order of the values: what comes first in
/// the total order is not the greater value.
pub proof fn total_order_refines_value_order(a: u32, b: u32)
    requires
        !is_nan(a),
        !is_nan(b),
    ensures
        lt(a, b) ==> total_key(a) < total_key(b),
        total_key(a) <= total_key(b) ==> !lt(b, a),
{
}

/// The total order tells any two patterns apart.
pub proof fn total_key_is_injective(a: u32, b: u32)
    ensures
        total_key(a) == total_key(b) ==> a == b,
{
}

} // verus!

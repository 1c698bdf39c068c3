//! How bit patterns compare, told by the numbers that they stand for.
use vstd::arithmetic::power2::{
    lemma_pow2_pos, lemma_pow2_strictly_increases, lemma_pow2_unfold, pow2,
};
use vstd::prelude::*;

use crate::float_bits;

verus! {

/// The number that an exponent and a fraction stand for, counted in steps of the smallest number
/// above zero. There are `unit` fractions to each exponent.
pub open spec fn steps(unit: int, exponent: int, fraction: int) -> int {
    if exponent == 0 {
        fraction
    } else {
        (unit + fraction) * pow2((exponent - 1) as nat)
    }
}

/// The exponent of a single precision pattern.
pub open spec fn exponent(bits: u32) -> int {
    (bits / 0x80_0000) as int % 256
}

pub open spec fn fraction(bits: u32) -> int {
    (bits % 0x80_0000) as int
}

/// The number that a finite single precision pattern stands for, in steps of the smallest one.
pub open spec fn number(bits: u32) -> int {
    let size = steps(0x80_0000, exponent(bits), fraction(bits));
    if bits >= 0x8000_0000 {
        -size
    } else {
        size
    }
}

/// The exponent of a double precision pattern.
pub open spec fn double_exponent(bits: u64) -> int {
    (bits / 0x10_0000_0000_0000) as int % 2048
}

pub open spec fn double_fraction(bits: u64) -> int {
    (bits % 0x10_0000_0000_0000) as int
}

/// The number that a finite double precision pattern stands for, in steps of the smallest one.
pub open spec fn double_number(bits: u64) -> int {
    let size = steps(0x10_0000_0000_0000, double_exponent(bits), double_fraction(bits));
    if bits >= 0x8000_0000_0000_0000 {
        -size
    } else {
        size
    }
}

proof fn lemma_steps_grow(unit: int, e: int, f: int, e2: int, f2: int)
    requires
        unit >= 1,
        0 <= e,
        0 <= f < unit,
        0 <= f2 < unit,
        e < e2 || (e == e2 && f < f2),
    ensures
        0 <= steps(unit, e, f) < steps(unit, e2, f2),
{
    let p2 = pow2((e2 - 1) as nat) as int;
    lemma_pow2_pos((e2 - 1) as nat);
    if e == 0 {
        if e2 > 0 {
            assert((unit + f2) * p2 > f) by (nonlinear_arith)
                requires
                    p2 >= 1,
                    f < unit,
                    0 <= f2,
                    unit >= 1,
            ;
        }
    } else {
        let p = pow2((e - 1) as nat) as int;
        lemma_pow2_pos((e - 1) as nat);
        if e == e2 {
            assert(0 <= (unit + f) * p < (unit + f2) * p) by (nonlinear_arith)
                requires
                    p >= 1,
                    0 <= f < f2,
                    unit >= 1,
            ;
        } else {
            lemma_pow2_unfold(e as nat);
            if e < e2 - 1 {
                lemma_pow2_strictly_increases(e as nat, (e2 - 1) as nat);
            }
            assert(p2 >= 2 * p);
            assert(0 <= (unit + f) * p < (unit + f2) * p2) by (nonlinear_arith)
                requires
                    p >= 1,
                    p2 >= 2 * p,
                    0 <= f < unit,
                    0 <= f2,
                    unit >= 1,
            ;
        }
    }
}

// Two magnitudes compare as the numbers that they stand for.
proof fn lemma_magnitudes(unit: int, a: int, b: int)
    requires
        unit >= 1,
        0 <= a,
        0 <= b,
    ensures
        a < b <==> steps(unit, a / unit, a % unit) < steps(unit, b / unit, b % unit),
        a == b <==> steps(unit, a / unit, a % unit) == steps(unit, b / unit, b % unit),
        a == 0 <==> steps(unit, a / unit, a % unit) == 0,
        steps(unit, a / unit, a % unit) >= 0,
        steps(unit, b / unit, b % unit) >= 0,
{
    lemma_parts(unit, a);
    lemma_parts(unit, b);
    lemma_order(unit, a, b);
    lemma_order(unit, b, a);
    lemma_parts(unit, 0);
    assert(0int / unit == 0 && 0int % unit == 0) by (nonlinear_arith)
        requires
            unit >= 1,
    ;
    lemma_order(unit, 0, a);
    lemma_order(unit, 0, b);
}

proof fn lemma_parts(unit: int, a: int)
    requires
        unit >= 1,
        0 <= a,
    ensures
        0 <= a / unit,
        0 <= a % unit < unit,
{
    vstd::arithmetic::div_mod::lemma_div_pos_is_pos(a, unit);
    vstd::arithmetic::div_mod::lemma_mod_bound(a, unit);
}

proof fn lemma_order(unit: int, a: int, b: int)
    requires
        unit >= 1,
        0 <= a,
        0 <= b,
    ensures
        a < b ==> steps(unit, a / unit, a % unit) < steps(unit, b / unit, b % unit),
{
    if a < b {
        lemma_parts(unit, a);
        lemma_parts(unit, b);
        assert(a / unit < b / unit || (a / unit == b / unit && a % unit < b % unit)) by {
            vstd::arithmetic::div_mod::lemma_fundamental_div_mod(a, unit);
            vstd::arithmetic::div_mod::lemma_fundamental_div_mod(b, unit);
            vstd::arithmetic::div_mod::lemma_div_is_ordered(a, b, unit);
        }
        lemma_steps_grow(unit, a / unit, a % unit, b / unit, b % unit);
    }
}

/// Two finite patterns compare as the numbers that they stand for, and the two zeros are equal.
pub proof fn patterns_compare_as_their_numbers(a: u32, b: u32)
    requires
        exponent(a) < 255,
        exponent(b) < 255,
    ensures
        float_bits::lt(a, b) <==> number(a) < number(b),
        float_bits::eq(a, b) <==> number(a) == number(b),
        float_bits::total_key(a) < float_bits::total_key(b) <==> number(a) < number(b) || (number(a)
            == number(b) && a >= 0x8000_0000 && b < 0x8000_0000),
{
    lemma_magnitudes(0x80_0000, float_bits::magnitude(a), float_bits::magnitude(b));
    lemma_magnitudes(0x80_0000, float_bits::magnitude(b), float_bits::magnitude(a));
}

/// A pattern with the highest exponent is infinite, or a NaN if it has a fraction; every other one
/// is finite. A NaN is neither below, nor equal to, nor above any pattern; the infinite ones are
/// beyond all finite ones, and NaNs come at both ends of the total order.
pub proof fn some_patterns_are_no_numbers(a: u32, b: u32)
    ensures
        float_bits::is_finite(a) <==> exponent(a) < 255,
        float_bits::is_nan(a) <==> exponent(a) == 255 && fraction(a) != 0,
        float_bits::is_nan(a) ==> !float_bits::lt(a, b) && !float_bits::lt(b, a) && !float_bits::eq(
            a,
            b,
        ) && !float_bits::eq(b, a),
        exponent(b) < 255 ==> float_bits::lt(b, 0x7f80_0000) && float_bits::lt(0xff80_0000, b),
        float_bits::is_nan(a) && !float_bits::is_nan(b) ==> if a >= 0x8000_0000 {
            float_bits::total_key(a) < float_bits::total_key(b)
        } else {
            float_bits::total_key(b) < float_bits::total_key(a)
        },
{
}

/// Two finite patterns of double precision compare as the numbers that they stand for.
pub proof fn double_patterns_compare_as_their_numbers(a: u64, b: u64)
    requires
        double_exponent(a) < 2047,
        double_exponent(b) < 2047,
    ensures
        float_bits::double_le(a, b) <==> double_number(a) <= double_number(b),
        float_bits::double_total_key(a) < float_bits::double_total_key(b) <==> double_number(a)
            < double_number(b) || (double_number(a) == double_number(b) && a
            >= 0x8000_0000_0000_0000 && b < 0x8000_0000_0000_0000),
{
    lemma_magnitudes(
        0x10_0000_0000_0000,
        float_bits::double_magnitude(a),
        float_bits::double_magnitude(b),
    );
    lemma_magnitudes(
        0x10_0000_0000_0000,
        float_bits::double_magnitude(b),
        float_bits::double_magnitude(a),
    );
}

/// A pattern of double precision with the highest exponent is infinite, or a NaN if it has a
/// fraction; every other one is finite. A NaN is at most nothing, and nothing is at most a NaN.
pub proof fn some_double_patterns_are_no_numbers(a: u64, b: u64)
    ensures
        float_bits::double_is_finite(a) <==> double_exponent(a) < 2047,
        float_bits::double_is_nan(a) <==> double_exponent(a) == 2047 && double_fraction(a) != 0,
        float_bits::double_is_nan(a) ==> !float_bits::double_le(a, b) && !float_bits::double_le(
            b,
            a,
        ),
{
}

} // verus!

//! Single precision values in double precision.
use crate::float_bits;
use vstd::arithmetic::power2;
use vstd::prelude::*;

verus! {

/// The double precision magnitude of a significand of at most twenty-four bits that is not zero. The
/// exponent is that of a significand of exactly twenty-four; a shorter one is brought to that length
/// by doubling it and lowering the exponent.
pub open spec fn normalized(significand: int, exponent: int) -> int
    decreases 0x100_0000 - significand,
{
    if significand <= 0 || significand >= 0x80_0000 {
        exponent * 0x10_0000_0000_0000 + (significand - 0x80_0000) * 0x2000_0000
    } else {
        normalized(2 * significand, exponent - 1)
    }
}

/// The magnitude of a finite value in double precision.
pub open spec fn widened_magnitude(magnitude: int) -> int {
    if magnitude == 0 {
        0
    } else if magnitude < 0x80_0000 {
        normalized(magnitude, 897)
    } else {
        normalized(0x80_0000 + magnitude % 0x80_0000, magnitude / 0x80_0000 + 896)
    }
}

/// A finite value in double precision.
pub open spec fn widened(bits: u32) -> u64 {
    if float_bits::is_negative(bits) {
        (0x8000_0000_0000_0000 + widened_magnitude(float_bits::magnitude(bits))) as u64
    } else {
        widened_magnitude(float_bits::magnitude(bits)) as u64
    }
}

/// The size of a finite value of single precision, in units of two to the power of -1074.
pub open spec fn exact_size(magnitude: int) -> int {
    let exponent = magnitude / 0x80_0000;
    let fraction = magnitude % 0x80_0000;
    if exponent == 0 {
        fraction * power2::pow2(925)
    } else {
        (0x80_0000 + fraction) * power2::pow2((exponent + 924) as nat)
    }
}

/// The size of a finite value of double precision, in units of two to the power of -1074.
pub open spec fn double_exact_size(magnitude: int) -> int {
    let exponent = magnitude / 0x10_0000_0000_0000;
    let fraction = magnitude % 0x10_0000_0000_0000;
    if exponent == 0 {
        fraction
    } else {
        (0x10_0000_0000_0000 + fraction) * power2::pow2((exponent - 1) as nat)
    }
}

/// A significand that has to be doubled stays below its exponent.
proof fn lemma_normalized_below(significand: int, exponent: int)
    requires
        0 < significand < 0x100_0000,
    ensures
        normalized(significand, exponent) < (exponent + 1) * 0x10_0000_0000_0000,
        significand < 0x80_0000 ==> normalized(significand, exponent) < exponent
            * 0x10_0000_0000_0000,
        significand >= 0x80_0000 ==> normalized(significand, exponent) >= exponent
            * 0x10_0000_0000_0000,
    decreases 0x100_0000 - significand,
{
    if significand < 0x80_0000 {
        lemma_normalized_below(2 * significand, exponent - 1);
    }
}

/// Doubling it `steps` times, and no more, makes the significand long enough.
proof fn lemma_normalized_above(significand: int, exponent: int, steps: nat)
    requires
        0 < significand < 0x100_0000,
        significand * power2::pow2(steps) >= 0x80_0000,
    ensures
        normalized(significand, exponent) >= (exponent - steps) * 0x10_0000_0000_0000,
    decreases steps,
{
    power2::lemma_pow2_pos(steps);
    if significand < 0x80_0000 {
        if steps == 0 {
            power2::lemma2_to64();
        } else {
            power2::lemma_pow2_unfold(steps);
            let before = power2::pow2((steps - 1) as nat);
            assert(significand * (2 * before) == (2 * significand) * before) by (nonlinear_arith);
            lemma_normalized_above(2 * significand, exponent - 1, (steps - 1) as nat);
        }
    }
}

proof fn lemma_normalized_grows(a: int, b: int, exponent: int)
    requires
        0 < a < b < 0x100_0000,
    ensures
        normalized(a, exponent) < normalized(b, exponent),
    decreases 0x100_0000 - a,
{
    if b < 0x80_0000 {
        lemma_normalized_grows(2 * a, 2 * b, exponent - 1);
    } else {
        lemma_normalized_below(a, exponent);
        lemma_normalized_below(b, exponent);
    }
}

proof fn lemma_normalized_exact(significand: int, exponent: int, steps: nat)
    requires
        0 < significand < 0x100_0000,
        significand * power2::pow2(steps) >= 0x80_0000,
        exponent > steps,
    ensures
        double_exact_size(normalized(significand, exponent)) == significand * power2::pow2(
            (exponent + 28) as nat,
        ),
    decreases steps,
{
    power2::lemma_pow2_pos(steps);
    if significand >= 0x80_0000 {
        let m = normalized(significand, exponent);
        assert(m / 0x10_0000_0000_0000 == exponent);
        assert(m % 0x10_0000_0000_0000 == (significand - 0x80_0000) * 0x2000_0000);
        let low = power2::pow2((exponent - 1) as nat);
        power2::lemma_pow2_adds((exponent - 1) as nat, 29);
        power2::lemma2_to64();
        assert(power2::pow2(29) == 0x2000_0000);
        assert((significand * 0x2000_0000) * low == significand * (low * 0x2000_0000))
            by (nonlinear_arith);
    } else {
        if steps == 0 {
            power2::lemma2_to64();
        } else {
            power2::lemma_pow2_unfold(steps);
            let before = power2::pow2((steps - 1) as nat);
            assert(significand * (2 * before) == (2 * significand) * before) by (nonlinear_arith);
            lemma_normalized_exact(2 * significand, exponent - 1, (steps - 1) as nat);
            let half = power2::pow2((exponent + 27) as nat);
            power2::lemma_pow2_unfold((exponent + 28) as nat);
            assert((2 * significand) * half == significand * (2 * half)) by (nonlinear_arith);
        }
    }
}

proof fn lemma_one_doubled(significand: int)
    requires
        significand >= 1,
    ensures
        significand * power2::pow2(23) >= 0x80_0000,
{
    power2::lemma2_to64();
    assert(power2::pow2(23) == 0x80_0000);
}

/// A widened magnitude is that of a finite double precision value.
pub proof fn lemma_widened_bounds(magnitude: int)
    requires
        0 <= magnitude < float_bits::INFINITY_BITS,
    ensures
        0 <= widened_magnitude(magnitude) < 0x7ff0_0000_0000_0000,
        magnitude > 0 ==> widened_magnitude(magnitude) > 0,
        magnitude < 0x80_0000 ==> widened_magnitude(magnitude) < 897 * 0x10_0000_0000_0000,
        magnitude >= 0x80_0000 ==> widened_magnitude(magnitude) >= 897 * 0x10_0000_0000_0000,
{
    if magnitude > 0 {
        if magnitude < 0x80_0000 {
            lemma_normalized_below(magnitude, 897);
            lemma_one_doubled(magnitude);
            lemma_normalized_above(magnitude, 897, 23);
        } else {
            lemma_normalized_below(
                0x80_0000 + magnitude % 0x80_0000,
                magnitude / 0x80_0000 + 896,
            );
        }
    }
}

/// Widening changes no value: the size stays what it was, exactly.
pub proof fn widening_is_exact(magnitude: int)
    requires
        0 <= magnitude < float_bits::INFINITY_BITS,
    ensures
        double_exact_size(widened_magnitude(magnitude)) == exact_size(magnitude),
{
    if magnitude > 0 {
        if magnitude < 0x80_0000 {
            lemma_one_doubled(magnitude);
            lemma_normalized_exact(magnitude, 897, 23);
        } else {
            let exponent = magnitude / 0x80_0000;
            let significand = 0x80_0000 + magnitude % 0x80_0000;
            power2::lemma2_to64();
            assert(significand * power2::pow2(0) >= 0x80_0000) by (nonlinear_arith)
                requires
                    significand >= 0x80_0000,
                    power2::pow2(0) == 1,
            ;
            lemma_normalized_exact(significand, exponent + 896, 0);
        }
    } else {
        assert(0 * power2::pow2(925) == 0) by (nonlinear_arith);
    }
}

/// Widening keeps the order of magnitudes.
pub proof fn widening_keeps_order(a: int, b: int)
    requires
        0 <= a < b < float_bits::INFINITY_BITS,
    ensures
        widened_magnitude(a) < widened_magnitude(b),
{
    lemma_widened_bounds(a);
    lemma_widened_bounds(b);
    if 0 < a && b < 0x80_0000 {
        lemma_normalized_grows(a, b, 897);
    } else if a >= 0x80_0000 {
        let ea = a / 0x80_0000;
        let eb = b / 0x80_0000;
        if ea == eb {
            lemma_normalized_grows(0x80_0000 + a % 0x80_0000, 0x80_0000 + b % 0x80_0000, ea + 896);
        } else {
            lemma_normalized_below(0x80_0000 + a % 0x80_0000, ea + 896);
            lemma_normalized_below(0x80_0000 + b % 0x80_0000, eb + 896);
        }
    }
}

/// The place of a finite value among the double precision values.
pub open spec fn wide_key(bits: u32) -> int {
    float_bits::double_value_key(widened(bits))
}

/// The place of a finite value by its sign and magnitude.
pub proof fn lemma_wide_key(bits: u32)
    requires
        float_bits::is_finite(bits),
    ensures
        float_bits::double_is_finite(widened(bits)),
        wide_key(bits) == (if float_bits::is_negative(bits) {
            -widened_magnitude(float_bits::magnitude(bits))
        } else {
            widened_magnitude(float_bits::magnitude(bits))
        }),
{
    lemma_widened_bounds(float_bits::magnitude(bits));
}

/// Widening keeps the order of finite values: one is less than another exactly if it is so in double
/// precision.
pub proof fn widening_keeps_values_apart(a: u32, b: u32)
    requires
        float_bits::is_finite(a),
        float_bits::is_finite(b),
    ensures
        float_bits::value_key(a) < float_bits::value_key(b) <==> wide_key(a) < wide_key(b),
{
    lemma_wide_key(a);
    lemma_wide_key(b);
    let ma = float_bits::magnitude(a);
    let mb = float_bits::magnitude(b);
    lemma_widened_bounds(ma);
    lemma_widened_bounds(mb);
    if ma < mb {
        widening_keeps_order(ma, mb);
    }
    if mb < ma {
        widening_keeps_order(mb, ma);
    }
}

/// A finite value in double precision.
pub fn widen(bits: u32) -> (r: u64)
    requires
        float_bits::is_finite(bits),
    ensures
        r == widened(bits),
{
    let negative: bool = bits >= 0x8000_0000;
    let size: u32 = if negative {
        bits - 0x8000_0000
    } else {
        bits
    };
    let ghost m = size as int;
    proof {
        lemma_widened_bounds(m);
    }
    let wide: u64 = if size == 0 {
        0
    } else {
        let mut significand: u64 = if size < 0x80_0000 {
            size as u64
        } else {
            (0x80_0000 + size % 0x80_0000) as u64
        };
        let mut exponent: u64 = if size < 0x80_0000 {
            897
        } else {
            (size / 0x80_0000 + 896) as u64
        };
        let mut steps: u64 = 23;
        proof {
            lemma_one_doubled(significand as int);
        }
        while significand < 0x80_0000
            invariant
                0 < significand < 0x100_0000,
                steps <= 23,
                significand * power2::pow2(steps as nat) >= 0x80_0000,
                exponent >= 874 + steps,
                exponent <= 1150,
                m > 0,
                normalized(significand as int, exponent as int) == widened_magnitude(m),
            decreases steps,
        {
            proof {
                if steps == 0 {
                    power2::lemma2_to64();
                    assert(false);
                }
                power2::lemma_pow2_unfold(steps as nat);
                let before = power2::pow2((steps - 1) as nat);
                let s = significand as int;
                assert(s * (2 * before) == (2 * s) * before) by (nonlinear_arith);
            }
            significand = significand * 2;
            exponent = exponent - 1;
            steps = steps - 1;
        }
        exponent * 0x10_0000_0000_0000 + (significand - 0x80_0000) * 0x2000_0000
    };
    assert(wide == widened_magnitude(m));
    if negative {
        0x8000_0000_0000_0000 + wide
    } else {
        wide
    }
}

} // verus!

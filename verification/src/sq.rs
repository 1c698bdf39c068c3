//! The bounds of a scalar quantizer, which stores each dimension of a vector in one byte.
use vstd::prelude::*;

use crate::error::IndexError;
use crate::float_bits;

verus! {

/// The pattern of negative infinity.
pub const NEGATIVE_INFINITY_BITS: u32 = 0xff80_0000;

/// For each dimension the least and the greatest value that a code can stand for.
#[derive(Debug, Clone)]
pub struct ScalarQuantizer {
    pub d: usize,
    pub mins: Vec<u32>,
    pub maxs: Vec<u32>,
}

/// The bounds of a scalar quantizer.
#[verifier::ext_equal]
pub struct SqBounds {
    pub d: usize,
    pub mins: Seq<u32>,
    pub maxs: Seq<u32>,
}

impl View for ScalarQuantizer {
    type V = SqBounds;

    open spec fn view(&self) -> SqBounds {
        SqBounds { d: self.d, mins: self.mins@, maxs: self.maxs@ }
    }
}

impl SqBounds {
    /// A finite least and greatest value for each dimension.
    pub open spec fn valid(self, d: usize) -> bool {
        &&& self.mins.len() == d
        &&& self.maxs.len() == d
        &&& float_bits::all_finite(self.mins)
        &&& float_bits::all_finite(self.maxs)
    }
}

impl ScalarQuantizer {
    /// How many bytes the code of a vector takes.
    pub fn code_size(&self) -> (r: usize)
        ensures
            r == self@.d,
    {
        self.d
    }

    /// A quantizer with these bounds.
    pub fn with_dimension_bounds(d: usize, mins: Vec<u32>, maxs: Vec<u32>) -> (r: Self)
        ensures
            r@ == (SqBounds { d, mins: mins@, maxs: maxs@ }),
    {
        ScalarQuantizer { d, mins, maxs }
    }
}

/// `e` says what is wrong with bounds that are not valid.
pub open spec fn bounds_refused(b: SqBounds, d: usize, e: IndexError) -> bool {
    if b.mins.len() != d || b.maxs.len() != d {
        e == IndexError::SqBoundsLength {
            d,
            mins: b.mins.len() as usize,
            maxs: b.maxs.len() as usize,
        }
    } else {
        e matches IndexError::SqBoundsNotFinite { place } && first_bad_bound(b, place)
    }
}

/// `place` is the first dimension with a bound that is not finite.
pub open spec fn first_bad_bound(b: SqBounds, place: usize) -> bool {
    &&& place < b.mins.len()
    &&& !float_bits::is_finite(b.mins[place as int]) || !float_bits::is_finite(
        b.maxs[place as int],
    )
    &&& float_bits::all_finite(b.mins.take(place as int))
    &&& float_bits::all_finite(b.maxs.take(place as int))
}

/// Refuses bounds that are not finite, or not as many as dimensions.
pub fn validate_sq_bounds(d: usize, mins: &Vec<u32>, maxs: &Vec<u32>) -> (r: Result<
    (),
    IndexError,
>)
    ensures
        ({
            let b = SqBounds { d, mins: mins@, maxs: maxs@ };
            match r {
                Ok(_) => b.valid(d),
                Err(e) => !b.valid(d) && bounds_refused(b, d, e),
            }
        }),
{
    if mins.len() != d || maxs.len() != d {
        return Err(IndexError::SqBoundsLength { d, mins: mins.len(), maxs: maxs.len() });
    }
    for i in 0..d
        invariant
            mins@.len() == d,
            maxs@.len() == d,
            forall|k: int| 0 <= k < i ==> float_bits::is_finite(#[trigger] mins@[k]),
            forall|k: int| 0 <= k < i ==> float_bits::is_finite(#[trigger] maxs@[k]),
    {
        if !float_bits::check_finite(mins[i]) || !float_bits::check_finite(maxs[i]) {
            let ghost b = SqBounds { d, mins: mins@, maxs: maxs@ };
            assert(first_bad_bound(b, i));
            return Err(IndexError::SqBoundsNotFinite { place: i });
        }
    }
    Ok(())
}

/// The least of the values; infinity without values. Of equal ones the first counts.
pub open spec fn least(values: Seq<u32>) -> u32
    decreases values.len(),
{
    if values.len() == 0 {
        float_bits::INFINITY_BITS
    } else {
        let rest = least(values.drop_last());
        if float_bits::lt(values.last(), rest) {
            values.last()
        } else {
            rest
        }
    }
}

/// The greatest of the values; negative infinity without values. Of equal ones the first counts.
pub open spec fn greatest(values: Seq<u32>) -> u32
    decreases values.len(),
{
    if values.len() == 0 {
        NEGATIVE_INFINITY_BITS
    } else {
        let rest = greatest(values.drop_last());
        if float_bits::lt(rest, values.last()) {
            values.last()
        } else {
            rest
        }
    }
}

/// The least and the greatest value of all dimensions; zeros where they are not finite.
pub open spec fn global_bounds(mins: Seq<u32>, maxs: Seq<u32>) -> (u32, u32) {
    if float_bits::is_finite(least(mins)) && float_bits::is_finite(greatest(maxs)) {
        (least(mins), greatest(maxs))
    } else {
        (0, 0)
    }
}

pub fn sq_global_bounds(mins: &Vec<u32>, maxs: &Vec<u32>) -> (r: (u32, u32))
    ensures
        r == global_bounds(mins@, maxs@),
{
    let mut min: u32 = float_bits::INFINITY_BITS;
    assert(mins@.take(0) =~= Seq::<u32>::empty());
    for i in 0..mins.len()
        invariant
            min == least(mins@.take(i as int)),
    {
        assert(mins@.take(i + 1).drop_last() =~= mins@.take(i as int));
        if float_bits::less_than(mins[i], min) {
            min = mins[i];
        }
    }
    assert(mins@.take(mins@.len() as int) =~= mins@);
    let mut max: u32 = NEGATIVE_INFINITY_BITS;
    assert(maxs@.take(0) =~= Seq::<u32>::empty());
    for i in 0..maxs.len()
        invariant
            max == greatest(maxs@.take(i as int)),
    {
        assert(maxs@.take(i + 1).drop_last() =~= maxs@.take(i as int));
        if float_bits::less_than(max, maxs[i]) {
            max = maxs[i];
        }
    }
    assert(maxs@.take(maxs@.len() as int) =~= maxs@);
    if float_bits::check_finite(min) && float_bits::check_finite(max) {
        (min, max)
    } else {
        (0, 0)
    }
}

/// No dimension has a bound outside the global bounds.
pub proof fn global_bounds_enclose(b: SqBounds, d: usize, i: int)
    requires
        b.valid(d),
        0 <= i < d,
    ensures
        !float_bits::lt(b.mins[i], global_bounds(b.mins, b.maxs).0),
        !float_bits::lt(global_bounds(b.mins, b.maxs).1, b.maxs[i]),
{
    lemma_least(b.mins);
    lemma_greatest(b.maxs);
    assert(!float_bits::lt(b.mins[i], least(b.mins)));
    assert(!float_bits::lt(greatest(b.maxs), b.maxs[i]));
    assert(float_bits::is_finite(b.mins[i]));
    assert(float_bits::is_finite(b.maxs[i]));
}

proof fn lemma_least(values: Seq<u32>)
    requires
        float_bits::all_finite(values),
    ensures
        !float_bits::is_nan(least(values)),
        values.len() > 0 ==> float_bits::is_finite(least(values)),
        forall|i: int| 0 <= i < values.len() ==> !float_bits::lt(#[trigger] values[i], least(values)),
    decreases values.len(),
{
    if values.len() > 0 {
        let front = values.drop_last();
        assert forall|i: int| 0 <= i < front.len() implies float_bits::is_finite(
            #[trigger] front[i],
        ) by {
            assert(front[i] == values[i]);
        }
        lemma_least(front);
        assert(float_bits::is_finite(values[values.len() - 1]));
        assert forall|i: int| 0 <= i < values.len() implies !float_bits::lt(
            #[trigger] values[i],
            least(values),
        ) by {
            if i < front.len() {
                assert(!float_bits::lt(front[i], least(front)));
            }
        }
    }
}

proof fn lemma_greatest(values: Seq<u32>)
    requires
        float_bits::all_finite(values),
    ensures
        !float_bits::is_nan(greatest(values)),
        values.len() > 0 ==> float_bits::is_finite(greatest(values)),
        forall|i: int|
            0 <= i < values.len() ==> !float_bits::lt(greatest(values), #[trigger] values[i]),
    decreases values.len(),
{
    if values.len() > 0 {
        let front = values.drop_last();
        assert forall|i: int| 0 <= i < front.len() implies float_bits::is_finite(
            #[trigger] front[i],
        ) by {
            assert(front[i] == values[i]);
        }
        lemma_greatest(front);
        assert(float_bits::is_finite(values[values.len() - 1]));
        assert forall|i: int| 0 <= i < values.len() implies !float_bits::lt(
            greatest(values),
            #[trigger] values[i],
        ) by {
            if i < front.len() {
                assert(!float_bits::lt(greatest(front), front[i]));
            }
        }
    }
}

/// The vectors that a function makes of the codes of a list.
pub open spec fn decoded<F: Fn(usize, &Vec<u8>) -> Vec<u32>>(
    f: F,
    l: usize,
    codes: Seq<u8>,
) -> Seq<u32> {
    choose|v: Seq<u32>| decodes_to(f, l, codes, v)
}

pub open spec fn decodes_to<F: Fn(usize, &Vec<u8>) -> Vec<u32>>(
    f: F,
    l: usize,
    codes: Seq<u8>,
    v: Seq<u32>,
) -> bool {
    exists|c: &Vec<u8>, r: Vec<u32>|
        c@ == codes && r@ == v && #[trigger] call_ensures(f, (l, c), r)
}

/// What a function makes of the codes of each list.
pub open spec fn decoding<F: Fn(usize, &Vec<u8>) -> Vec<u32>>(f: F) -> spec_fn(
    usize,
    Seq<u8>,
) -> Seq<u32> {
    |l: usize, codes: Seq<u8>| decoded(f, l, codes)
}

/// The function makes one value of each byte of the codes of each list, always the same.
pub open spec fn is_decoder<F: Fn(usize, &Vec<u8>) -> Vec<u32>>(f: F, nlist: nat) -> bool {
    &&& forall|l: usize, c: &Vec<u8>| l < nlist ==> #[trigger] call_requires(f, (l, c))
    &&& forall|l: usize, c: &Vec<u8>, r: Vec<u32>|
        l < nlist && #[trigger] call_ensures(f, (l, c), r) ==> r@ == decoded(f, l, c@) && r@.len()
            == c@.len()
}

} // verus!

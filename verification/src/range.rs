//! Search by distance: bands of distances, where they come from, and what falls into them.
//!
//! A band is half-open. Its cuts are bit patterns of single precision in the units of the index:
//! squared distance, one minus the cosine, or the negative inner product. A side without a bound has
//! no cut at all rather than a very large one.
use crate::distance::MetricType;
use crate::error::IndexError;
use crate::float_bits;
use crate::kmeans;
use crate::widening;
use vstd::prelude::*;

verus! {

/// One end of a band.
#[derive(Debug, Clone, Copy, PartialEq, Eq, Structural)]
pub enum Bound {
    Unbounded,
    Finite(u32),
}

/// The distances from `lower`, which belongs to it, up to `upper`, which does not.
#[derive(Debug, Clone, Copy, PartialEq, Eq, Structural)]
pub struct DistanceBand {
    pub lower: Bound,
    pub upper: Bound,
    pub metric: MetricType,
}

/// What is wrong with a cut.
pub open spec fn cut_fault(bound: Bound, metric: MetricType) -> Option<IndexError> {
    match bound {
        Bound::Unbounded => None,
        Bound::Finite(value) => if !float_bits::is_finite(value) {
            Some(IndexError::RangeCutNotFinite)
        } else if metric == MetricType::L2 && float_bits::value_key(value) < 0 {
            Some(IndexError::RangeCutNegative)
        } else {
            None
        },
    }
}

/// What is wrong with a band.
pub open spec fn band_fault(lower: Bound, upper: Bound, metric: MetricType) -> Option<IndexError> {
    match cut_fault(lower, metric) {
        Some(e) => Some(e),
        None => match cut_fault(upper, metric) {
            Some(e) => Some(e),
            None => match (lower, upper) {
                (Bound::Finite(low), Bound::Finite(high)) => if float_bits::value_key(low)
                    > float_bits::value_key(high) {
                    Some(IndexError::RangeInverted)
                } else {
                    None
                },
                _ => None,
            },
        },
    }
}

fn check_cut(bound: Bound, metric: MetricType) -> (r: Result<(), IndexError>)
    ensures
        r == (match cut_fault(bound, metric) {
            Some(e) => Err(e),
            None => Ok(()),
        }),
{
    match bound {
        Bound::Unbounded => Ok(()),
        Bound::Finite(value) => {
            if !float_bits::check_finite(value) {
                return Err(IndexError::RangeCutNotFinite);
            }
            if metric == MetricType::L2 && float_bits::less_than(value, 0) {
                return Err(IndexError::RangeCutNegative);
            }
            Ok(())
        },
    }
}

impl DistanceBand {
    pub open spec fn well_formed(self) -> bool {
        band_fault(self.lower, self.upper, self.metric) is None
    }

    /// The distance is in the band. One that is not finite is in none.
    pub open spec fn admits(self, value: u32) -> bool {
        &&& float_bits::is_finite(value)
        &&& self.lower matches Bound::Finite(low) ==> float_bits::value_key(value)
            >= float_bits::value_key(low)
        &&& self.upper matches Bound::Finite(high) ==> float_bits::value_key(value)
            < float_bits::value_key(high)
    }

    /// A band with these cuts. Cuts that are not finite, that are negative where distances are
    /// squares, or in the wrong order are refused.
    pub fn from_raw(lower: Bound, upper: Bound, metric: MetricType) -> (r: Result<
        Self,
        IndexError,
    >)
        ensures
            r == (match band_fault(lower, upper, metric) {
                Some(e) => Err(e),
                None => Ok(DistanceBand { lower, upper, metric }),
            }),
    {
        check_cut(lower, metric)?;
        check_cut(upper, metric)?;
        match (lower, upper) {
            (Bound::Finite(low), Bound::Finite(high)) => {
                if float_bits::less_than(high, low) {
                    return Err(IndexError::RangeInverted);
                }
            },
            _ => {},
        }
        Ok(DistanceBand { lower, upper, metric })
    }

    pub fn metric(&self) -> (r: MetricType)
        ensures
            r == self.metric,
    {
        self.metric
    }

    pub fn raw_lower(&self) -> (r: Bound)
        ensures
            r == self.lower,
    {
        self.lower
    }

    pub fn raw_upper(&self) -> (r: Bound)
        ensures
            r == self.upper,
    {
        self.upper
    }

    /// Tells whether the cuts leave no room between them.
    pub fn is_empty(&self) -> (r: bool)
        requires
            self.well_formed(),
        ensures
            r == (self.lower matches Bound::Finite(low) && self.upper matches Bound::Finite(high)
                && float_bits::value_key(low) >= float_bits::value_key(high)),
    {
        match (self.lower, self.upper) {
            (Bound::Finite(low), Bound::Finite(high)) => !float_bits::less_than(low, high),
            _ => false,
        }
    }

    /// Tells whether a distance is in the band.
    pub fn admit_raw(&self, value: u32) -> (r: bool)
        requires
            self.well_formed(),
        ensures
            r == self.admits(value),
    {
        if !float_bits::check_finite(value) {
            return false;
        }
        let above: bool = match self.lower {
            Bound::Unbounded => true,
            Bound::Finite(low) => !float_bits::less_than(value, low),
        };
        let below: bool = match self.upper {
            Bound::Unbounded => true,
            Bound::Finite(high) => float_bits::less_than(value, high),
        };
        above && below
    }

    /// An empty band admits nothing, and a band without bounds everything that is finite.
    pub proof fn extreme_bands(self, value: u32)
        requires
            self.well_formed(),
        ensures
            self.lower matches Bound::Finite(low) && self.upper matches Bound::Finite(high)
                && float_bits::value_key(low) >= float_bits::value_key(high) ==> !self.admits(value),
            self.lower is Unbounded && self.upper is Unbounded ==> (self.admits(value)
                <==> float_bits::is_finite(value)),
    {
    }
}

/// How an endpoint is compared with.
#[derive(Debug, Clone, Copy, PartialEq, Eq, Structural)]
pub enum CutOperator {
    Ge,
    Gt,
    Le,
    Lt,
}

/// An endpoint of a predicate on distances as they are shown. The value is a bit pattern of double
/// precision.
#[derive(Debug, Clone, Copy, PartialEq, Eq, Structural)]
pub struct DistanceEndpoint {
    pub value: u64,
    pub op: CutOperator,
}

/// The comparison of a shown distance with an endpoint, both by their places on the real line.
pub open spec fn holds(op: CutOperator, shown: int, endpoint: int) -> bool {
    match op {
        CutOperator::Ge => shown >= endpoint,
        CutOperator::Gt => shown > endpoint,
        CutOperator::Le => shown <= endpoint,
        CutOperator::Lt => shown < endpoint,
    }
}

/// A distance meets an endpoint, if there is one.
pub open spec fn meets(endpoint: Option<DistanceEndpoint>, shown: int) -> bool {
    match endpoint {
        Some(ep) => holds(ep.op, shown, float_bits::double_value_key(ep.value)),
        None => true,
    }
}

/// What is wrong with two endpoints before the metric is looked at.
pub open spec fn endpoints_fault(
    lower: Option<DistanceEndpoint>,
    upper: Option<DistanceEndpoint>,
) -> Option<IndexError> {
    if lower matches Some(ep) && !float_bits::double_is_finite(ep.value) {
        Some(IndexError::EndpointNotFinite)
    } else if upper matches Some(ep) && !float_bits::double_is_finite(ep.value) {
        Some(IndexError::EndpointNotFinite)
    } else if lower matches Some(ep) && (ep.op == CutOperator::Le || ep.op == CutOperator::Lt) {
        Some(IndexError::LowerOperator)
    } else if upper matches Some(ep) && (ep.op == CutOperator::Ge || ep.op == CutOperator::Gt) {
        Some(IndexError::UpperOperator)
    } else {
        None
    }
}

/// The lower endpoint is above the upper one.
pub open spec fn are_inverted(
    lower: Option<DistanceEndpoint>,
    upper: Option<DistanceEndpoint>,
) -> bool {
    lower matches Some(low) && upper matches Some(high) && float_bits::double_value_key(low.value)
        > float_bits::double_value_key(high.value)
}

/// The place of a stored distance as it is shown: as it is, or for inner products with the other
/// sign.
pub open spec fn shown_linear(metric: MetricType, bits: u32) -> int {
    if metric == MetricType::InnerProduct {
        -widening::wide_key(bits)
    } else {
        widening::wide_key(bits)
    }
}

/// A value is past the cut that an endpoint makes: at it or above, or strictly above.
pub open spec fn is_past(op: CutOperator, value: int, endpoint: int) -> bool {
    if op == CutOperator::Ge || op == CutOperator::Lt {
        value >= endpoint
    } else {
        value > endpoint
    }
}

/// The cut is the first finite value, in the total order, that is past the endpoint; there is none
/// where no finite value is.
pub open spec fn is_first_cut(endpoint: DistanceEndpoint, cut: Option<u32>) -> bool {
    let e = float_bits::double_value_key(endpoint.value);
    match cut {
        Some(bits) => {
            &&& float_bits::is_finite(bits)
            &&& is_past(endpoint.op, widening::wide_key(bits), e)
            &&& forall|other: u32|
                float_bits::is_finite(other) && float_bits::total_key(other)
                    < float_bits::total_key(bits) ==> !is_past(
                    endpoint.op,
                    #[trigger] widening::wide_key(other),
                    e,
                )
        },
        None => forall|other: u32|
            float_bits::is_finite(other) ==> !is_past(
                endpoint.op,
                #[trigger] widening::wide_key(other),
                e,
            ),
    }
}

/// The finite pattern at a place of the total order, counted from zero.
pub open spec fn pattern_at(key: u32) -> u32 {
    if key >= 0x8000_0000 {
        (key - 0x8000_0000) as u32
    } else {
        (0xffff_ffff - key) as u32
    }
}

fn ordered_value(key: u32) -> (r: u32)
    ensures
        r == pattern_at(key),
{
    if key >= 0x8000_0000 {
        key - 0x8000_0000
    } else {
        0xffff_ffff - key
    }
}

proof fn lemma_total_order_widens(a: u32, b: u32)
    requires
        float_bits::is_finite(a),
        float_bits::is_finite(b),
        float_bits::total_key(a) <= float_bits::total_key(b),
    ensures
        widening::wide_key(a) <= widening::wide_key(b),
{
    widening::widening_keeps_values_apart(b, a);
}

fn check_past(op: CutOperator, bits: u32, endpoint: u64) -> (r: bool)
    requires
        float_bits::is_finite(bits),
        float_bits::double_is_finite(endpoint),
    ensures
        r == is_past(
            op,
            widening::wide_key(bits),
            float_bits::double_value_key(endpoint),
        ),
{
    proof {
        widening::lemma_wide_key(bits);
    }
    let wide: u64 = widening::widen(bits);
    match op {
        CutOperator::Ge | CutOperator::Lt => float_bits::double_at_most(endpoint, wide),
        CutOperator::Gt | CutOperator::Le => !float_bits::double_at_most(wide, endpoint),
    }
}

/// Finds the first value that is past an endpoint.
pub fn first_linear_cut(endpoint: DistanceEndpoint) -> (r: Option<u32>)
    requires
        float_bits::double_is_finite(endpoint.value),
    ensures
        is_first_cut(endpoint, r),
{
    let mut low: u32 = 0x0080_0000;
    let mut high: u32 = 0xff7f_ffff;
    let ghost e = float_bits::double_value_key(endpoint.value);
    if !check_past(endpoint.op, ordered_value(high), endpoint.value) {
        proof {
            assert forall|other: u32| float_bits::is_finite(other) implies !is_past(
                endpoint.op,
                #[trigger] widening::wide_key(other),
                e,
            ) by {
                lemma_total_order_widens(other, pattern_at(high));
            }
        }
        return None;
    }
    while low < high
        invariant
            0x0080_0000 <= low <= high <= 0xff7f_ffff,
            float_bits::double_is_finite(endpoint.value),
            e == float_bits::double_value_key(endpoint.value),
            is_past(endpoint.op, widening::wide_key(pattern_at(high)), e),
            forall|other: u32|
                float_bits::is_finite(other) && float_bits::total_key(other)
                    < float_bits::total_key(pattern_at(low)) ==> !is_past(
                    endpoint.op,
                    #[trigger] widening::wide_key(other),
                    e,
                ),
        decreases high - low,
    {
        let middle: u32 = low + (high - low) / 2;
        if check_past(endpoint.op, ordered_value(middle), endpoint.value) {
            high = middle;
        } else {
            proof {
                assert forall|other: u32|
                    float_bits::is_finite(other) && float_bits::total_key(other)
                        < float_bits::total_key(pattern_at((middle + 1) as u32)) implies !is_past(
                    endpoint.op,
                    #[trigger] widening::wide_key(other),
                    e,
                ) by {
                    lemma_total_order_widens(other, pattern_at(middle));
                }
            }
            low = middle + 1;
        }
    }
    proof {
        assert forall|other: u32|
            float_bits::is_finite(other) && float_bits::total_key(other) < float_bits::total_key(
                pattern_at(low),
            ) implies !is_past(endpoint.op, #[trigger] widening::wide_key(other), e) by {
        }
    }
    Some(ordered_value(low))
}

/// The endpoint of the stored values that says the same as one of the shown values, where the shown
/// values have the other sign.
pub open spec fn reversed(endpoint: DistanceEndpoint) -> DistanceEndpoint {
    DistanceEndpoint {
        value: if endpoint.value >= 0x8000_0000_0000_0000 {
            (endpoint.value - 0x8000_0000_0000_0000) as u64
        } else {
            (endpoint.value + 0x8000_0000_0000_0000) as u64
        },
        op: match endpoint.op {
            CutOperator::Ge => CutOperator::Le,
            CutOperator::Gt => CutOperator::Lt,
            CutOperator::Le => CutOperator::Ge,
            CutOperator::Lt => CutOperator::Gt,
        },
    }
}

fn reverse(endpoint: DistanceEndpoint) -> (r: DistanceEndpoint)
    ensures
        r == reversed(endpoint),
{
    DistanceEndpoint {
        value: if endpoint.value >= 0x8000_0000_0000_0000 {
            endpoint.value - 0x8000_0000_0000_0000
        } else {
            endpoint.value + 0x8000_0000_0000_0000
        },
        op: match endpoint.op {
            CutOperator::Ge => CutOperator::Le,
            CutOperator::Gt => CutOperator::Lt,
            CutOperator::Le => CutOperator::Ge,
            CutOperator::Lt => CutOperator::Gt,
        },
    }
}

fn reverse_side(side: Option<DistanceEndpoint>) -> (r: Option<DistanceEndpoint>)
    ensures
        r == (match side {
            Some(ep) => Some(reversed(ep)),
            None => None,
        }),
{
    match side {
        Some(ep) => Some(reverse(ep)),
        None => None,
    }
}

/// The pattern of the smallest finite value.
pub const MIN_BITS: u32 = 0xff7f_ffff;

/// The band between two cuts. There may be no lower endpoint, or one that no value is past; without
/// an upper cut every value is below it. Where nothing can be between the cuts the band is empty.
pub open spec fn linear_band(
    lower: Option<Option<u32>>,
    upper: Option<u32>,
    metric: MetricType,
) -> DistanceBand {
    let nothing = match lower {
        Some(None) => true,
        Some(Some(low)) => upper matches Some(high) && float_bits::value_key(low)
            > float_bits::value_key(high),
        None => false,
    } || upper == Some(MIN_BITS);
    if nothing {
        DistanceBand { lower: Bound::Finite(0), upper: Bound::Finite(0), metric }
    } else {
        DistanceBand {
            lower: match lower {
                Some(Some(low)) => Bound::Finite(low),
                _ => Bound::Unbounded,
            },
            upper: match upper {
                Some(high) => Bound::Finite(high),
                None => Bound::Unbounded,
            },
            metric,
        }
    }
}

/// The band of the stored values that meet the endpoints.
fn band_between(
    lower: Option<DistanceEndpoint>,
    upper: Option<DistanceEndpoint>,
    metric: MetricType,
) -> (r: DistanceBand)
    requires
        metric != MetricType::L2,
        endpoints_fault(lower, upper) is None,
    ensures
        r.well_formed(),
        r.metric == metric,
        forall|bits: u32|
            float_bits::is_finite(bits) ==> (#[trigger] r.admits(bits) <==> meets(
                lower,
                widening::wide_key(bits),
            ) && meets(upper, widening::wide_key(bits))),
        exists|low: Option<Option<u32>>, high: Option<u32>|
            are_cuts(lower, upper, low, high) && r == #[trigger] linear_band(low, high, metric),
{
    let lower_cut: Option<Option<u32>> = match lower {
        Some(ep) => Some(first_linear_cut(ep)),
        None => None,
    };
    let upper_cut: Option<u32> = match upper {
        Some(ep) => first_linear_cut(ep),
        None => None,
    };
    proof {
        assert(are_cuts(lower, upper, lower_cut, upper_cut));
    }
    let low_bound: Bound = match lower_cut {
        Some(Some(low)) => Bound::Finite(low),
        _ => Bound::Unbounded,
    };
    let high_bound: Bound = match upper_cut {
        Some(high) => Bound::Finite(high),
        None => Bound::Unbounded,
    };
    let unreached: bool = match lower_cut {
        Some(None) => true,
        _ => false,
    };
    let at_least: bool = match upper_cut {
        Some(high) => high == MIN_BITS,
        None => false,
    };
    let crossed: bool = match (low_bound, high_bound) {
        (Bound::Finite(low), Bound::Finite(high)) => float_bits::less_than(high, low),
        _ => false,
    };
    let r = if unreached || at_least || crossed {
        DistanceBand { lower: Bound::Finite(0), upper: Bound::Finite(0), metric }
    } else {
        DistanceBand { lower: low_bound, upper: high_bound, metric }
    };
    proof {
        assert(r == linear_band(lower_cut, upper_cut, metric));
        assert forall|bits: u32| float_bits::is_finite(bits) implies (#[trigger] r.admits(bits)
            <==> meets(lower, widening::wide_key(bits)) && meets(upper, widening::wide_key(bits))) by {
            lemma_lower_side(lower, lower_cut, bits);
            lemma_upper_side(upper, upper_cut, bits);
        }
    }
    r
}

/// These are the cuts of the endpoints.
pub open spec fn are_cuts(
    lower: Option<DistanceEndpoint>,
    upper: Option<DistanceEndpoint>,
    low: Option<Option<u32>>,
    high: Option<u32>,
) -> bool {
    &&& match (lower, low) {
        (Some(ep), Some(cut)) => is_first_cut(ep, cut),
        (None, None) => true,
        _ => false,
    }
    &&& match upper {
        Some(ep) => is_first_cut(ep, high),
        None => high is None,
    }
}

/// The values that meet a lower endpoint are those from its cut on.
proof fn lemma_lower_side(lower: Option<DistanceEndpoint>, cut: Option<Option<u32>>, bits: u32)
    requires
        float_bits::is_finite(bits),
        lower matches Some(ep) ==> (ep.op == CutOperator::Ge || ep.op == CutOperator::Gt) && (cut
            matches Some(c) && is_first_cut(ep, c)),
        lower is None ==> cut is None,
    ensures
        cut == Some(None::<u32>) ==> !meets(lower, widening::wide_key(bits)),
        cut matches Some(Some(low)) ==> (meets(lower, widening::wide_key(bits))
            <==> float_bits::value_key(bits) >= float_bits::value_key(low)),
        cut is None ==> meets(lower, widening::wide_key(bits)),
{
    if let Some(Some(low)) = cut {
        widening::widening_keeps_values_apart(bits, low);
        if float_bits::value_key(bits) < float_bits::value_key(low) {
            assert(float_bits::total_key(bits) < float_bits::total_key(low));
        }
    }
}

/// The values that meet an upper endpoint are those before its cut.
proof fn lemma_upper_side(upper: Option<DistanceEndpoint>, cut: Option<u32>, bits: u32)
    requires
        float_bits::is_finite(bits),
        upper matches Some(ep) ==> (ep.op == CutOperator::Le || ep.op == CutOperator::Lt)
            && is_first_cut(ep, cut),
        upper is None ==> cut is None,
    ensures
        cut is None ==> meets(upper, widening::wide_key(bits)),
        cut matches Some(high) ==> (meets(upper, widening::wide_key(bits))
            <==> float_bits::value_key(bits) < float_bits::value_key(high)),
{
    if let Some(high) = cut {
        widening::widening_keeps_values_apart(bits, high);
        if float_bits::value_key(bits) < float_bits::value_key(high) {
            assert(float_bits::total_key(bits) < float_bits::total_key(high));
        }
    }
}

/// What a function gives for a pattern.
pub open spec fn value_of<F: Fn(u32) -> u64>(f: F, bits: u32) -> u64 {
    choose|r: u64| call_ensures(f, (bits,), r)
}

/// The function shows stored squared distances: it gives each finite one that is not negative a
/// number, the same each time, and never a smaller one for a larger distance.
pub open spec fn shows_distances<F: Fn(u32) -> u64>(f: F) -> bool {
    &&& forall|bits: u32| bits <= float_bits::MAX_BITS ==> #[trigger] call_requires(f, (bits,))
    &&& forall|bits: u32, r: u64|
        bits <= float_bits::MAX_BITS && #[trigger] call_ensures(f, (bits,), r) ==> r == value_of(
            f,
            bits,
        ) && !float_bits::double_is_nan(r)
    &&& forall|a: u32, b: u32|
        #![trigger value_of(f, a), value_of(f, b)]
        a <= b <= float_bits::MAX_BITS ==> float_bits::double_value_key(value_of(f, a))
            <= float_bits::double_value_key(value_of(f, b))
}

/// The place of a stored squared distance as it is shown.
pub open spec fn shown_root<F: Fn(u32) -> u64>(f: F, bits: u32) -> int {
    float_bits::double_value_key(value_of(f, bits))
}

/// The cut is the first squared distance whose shown value is past the endpoint; there is none where
/// none is.
pub open spec fn is_first_root_cut<F: Fn(u32) -> u64>(
    f: F,
    endpoint: DistanceEndpoint,
    cut: Option<u32>,
) -> bool {
    let e = float_bits::double_value_key(endpoint.value);
    match cut {
        Some(bits) => {
            &&& bits <= float_bits::MAX_BITS
            &&& is_past(endpoint.op, shown_root(f, bits), e)
            &&& forall|other: u32|
                other < bits ==> !is_past(endpoint.op, #[trigger] shown_root(f, other), e)
        },
        None => forall|other: u32|
            other <= float_bits::MAX_BITS ==> !is_past(
                endpoint.op,
                #[trigger] shown_root(f, other),
                e,
            ),
    }
}

fn check_root_past<F: Fn(u32) -> u64>(f: &F, endpoint: DistanceEndpoint, bits: u32) -> (r: bool)
    requires
        shows_distances(*f),
        bits <= float_bits::MAX_BITS,
        float_bits::double_is_finite(endpoint.value),
    ensures
        r == is_past(
            endpoint.op,
            shown_root(*f, bits),
            float_bits::double_value_key(endpoint.value),
        ),
{
    let shown: u64 = f(bits);
    match endpoint.op {
        CutOperator::Ge | CutOperator::Lt => float_bits::double_at_most(endpoint.value, shown),
        CutOperator::Gt | CutOperator::Le => !float_bits::double_at_most(shown, endpoint.value),
    }
}

/// Finds the first squared distance whose shown value is past an endpoint.
pub fn first_root_cut<F: Fn(u32) -> u64>(f: &F, endpoint: DistanceEndpoint) -> (r: Option<u32>)
    requires
        shows_distances(*f),
        float_bits::double_is_finite(endpoint.value),
    ensures
        is_first_root_cut(*f, endpoint, r),
{
    let mut low: u32 = 0;
    let mut high: u32 = float_bits::MAX_BITS;
    let ghost e = float_bits::double_value_key(endpoint.value);
    if !check_root_past(f, endpoint, high) {
        proof {
            assert forall|other: u32| other <= float_bits::MAX_BITS implies !is_past(
                endpoint.op,
                #[trigger] shown_root(*f, other),
                e,
            ) by {
                let a = value_of(*f, other);
                let b = value_of(*f, high);
            }
        }
        return None;
    }
    while low < high
        invariant
            low <= high <= float_bits::MAX_BITS,
            shows_distances(*f),
            float_bits::double_is_finite(endpoint.value),
            e == float_bits::double_value_key(endpoint.value),
            is_past(endpoint.op, shown_root(*f, high), e),
            forall|other: u32|
                other < low ==> !is_past(endpoint.op, #[trigger] shown_root(*f, other), e),
        decreases high - low,
    {
        let middle: u32 = low + (high - low) / 2;
        if check_root_past(f, endpoint, middle) {
            high = middle;
        } else {
            proof {
                assert forall|other: u32| other <= middle implies !is_past(
                    endpoint.op,
                    #[trigger] shown_root(*f, other),
                    e,
                ) by {
                    let a = value_of(*f, other);
                    let b = value_of(*f, middle);
                }
            }
            low = middle + 1;
        }
    }
    Some(low)
}

/// The squared distances that meet a lower endpoint are those from its cut on, and those that meet
/// an upper one are those before it.
proof fn lemma_root_side<F: Fn(u32) -> u64>(f: F, endpoint: DistanceEndpoint, cut: u32, bits: u32)
    requires
        shows_distances(f),
        is_first_root_cut(f, endpoint, Some(cut)),
        bits <= float_bits::MAX_BITS,
    ensures
        is_past(
            endpoint.op,
            shown_root(f, bits),
            float_bits::double_value_key(endpoint.value),
        ) <==> bits >= cut,
{
    if bits >= cut {
        let a = value_of(f, cut);
        let b = value_of(f, bits);
        assert(shown_root(f, cut) <= shown_root(f, bits));
    }
}

/// The cut of a side, if it has an endpoint. The result is an error where the endpoint has no cut.
fn resolve_side<F: Fn(u32) -> u64>(f: &F, side: Option<DistanceEndpoint>) -> (r: Result<
    Bound,
    IndexError,
>)
    requires
        shows_distances(*f),
        side matches Some(ep) ==> float_bits::double_is_finite(ep.value),
    ensures
        match side {
            None => r == Ok::<Bound, IndexError>(Bound::Unbounded),
            Some(ep) => match r {
                Ok(bound) => bound matches Bound::Finite(cut) && is_first_root_cut(
                    *f,
                    ep,
                    Some(cut),
                ),
                Err(e) => e == IndexError::EndpointNoCut && is_first_root_cut(*f, ep, None),
            },
        },
{
    match side {
        None => Ok(Bound::Unbounded),
        Some(ep) => match first_root_cut(f, ep) {
            Some(cut) => Ok(Bound::Finite(cut)),
            None => Err(IndexError::EndpointNoCut),
        },
    }
}

/// No squared distance is shown past the endpoint.
pub open spec fn has_no_root_cut<F: Fn(u32) -> u64>(f: F, side: Option<DistanceEndpoint>) -> bool {
    side matches Some(ep) && is_first_root_cut(f, ep, None)
}

/// The bound is the cut of the side, or none where there is no endpoint.
pub open spec fn is_root_bound<F: Fn(u32) -> u64>(
    f: F,
    side: Option<DistanceEndpoint>,
    bound: Bound,
) -> bool {
    match side {
        None => bound is Unbounded,
        Some(ep) => bound matches Bound::Finite(cut) && is_first_root_cut(f, ep, Some(cut)),
    }
}

fn check_endpoints(lower: Option<DistanceEndpoint>, upper: Option<DistanceEndpoint>) -> (r: Result<
    (),
    IndexError,
>)
    ensures
        r == (match endpoints_fault(lower, upper) {
            Some(e) => Err(e),
            None => Ok(()),
        }),
{
    match lower {
        Some(ep) => {
            if !float_bits::check_double_finite(ep.value) {
                return Err(IndexError::EndpointNotFinite);
            }
        },
        None => {},
    }
    match upper {
        Some(ep) => {
            if !float_bits::check_double_finite(ep.value) {
                return Err(IndexError::EndpointNotFinite);
            }
        },
        None => {},
    }
    match lower {
        Some(ep) => match ep.op {
            CutOperator::Ge | CutOperator::Gt => {},
            CutOperator::Le | CutOperator::Lt => {
                return Err(IndexError::LowerOperator);
            },
        },
        None => {},
    }
    match upper {
        Some(ep) => match ep.op {
            CutOperator::Le | CutOperator::Lt => {},
            CutOperator::Ge | CutOperator::Gt => {
                return Err(IndexError::UpperOperator);
            },
        },
        None => {},
    }
    Ok(())
}

fn check_inverted(lower: Option<DistanceEndpoint>, upper: Option<DistanceEndpoint>) -> (r: bool)
    requires
        endpoints_fault(lower, upper) is None,
    ensures
        r == are_inverted(lower, upper),
{
    match (lower, upper) {
        (Some(low), Some(high)) => !float_bits::double_at_most(low.value, high.value),
        _ => false,
    }
}

impl DistanceBand {
    /// The band of cosine distances or negative inner products whose shown values meet two endpoints.
    pub fn from_linear_endpoints(
        lower: Option<DistanceEndpoint>,
        upper: Option<DistanceEndpoint>,
        metric: MetricType,
    ) -> (r: Result<Self, IndexError>)
        requires
            metric != MetricType::L2,
        ensures
            match endpoints_fault(lower, upper) {
                Some(e) => r == Err::<DistanceBand, IndexError>(e),
                None => if are_inverted(lower, upper) {
                    r == Err::<DistanceBand, IndexError>(IndexError::RangeInverted)
                } else {
                    r matches Ok(band) && band.well_formed() && band.metric == metric
                        && is_linear_band(band, lower, upper)
                },
            },
            r matches Ok(band) ==> forall|bits: u32|
                float_bits::is_finite(bits) ==> (#[trigger] band.admits(bits) <==> meets(
                    lower,
                    shown_linear(metric, bits),
                ) && meets(upper, shown_linear(metric, bits))),
    {
        check_endpoints(lower, upper)?;
        if check_inverted(lower, upper) {
            return Err(IndexError::RangeInverted);
        }
        if metric == MetricType::InnerProduct {
            let low: Option<DistanceEndpoint> = reverse_side(upper);
            let high: Option<DistanceEndpoint> = reverse_side(lower);
            proof {
                if let Some(ep) = lower {
                    assert(float_bits::double_value_key(reversed(ep).value)
                        == -float_bits::double_value_key(ep.value));
                }
                if let Some(ep) = upper {
                    assert(float_bits::double_value_key(reversed(ep).value)
                        == -float_bits::double_value_key(ep.value));
                }
            }
            Ok(band_between(low, high, metric))
        } else {
            Ok(band_between(lower, upper, metric))
        }
    }

    /// The band of distances whose shown values meet two endpoints. The function gives the shown
    /// value of a squared distance; with other metrics it is not asked.
    pub fn from_endpoints<F: Fn(u32) -> u64>(
        lower: Option<DistanceEndpoint>,
        upper: Option<DistanceEndpoint>,
        metric: MetricType,
        root: &F,
    ) -> (r: Result<Self, IndexError>)
        requires
            metric == MetricType::L2 ==> shows_distances(*root),
        ensures
            endpoints_fault(lower, upper) matches Some(e) ==> r == Err::<DistanceBand, IndexError>(
                e,
            ),
            endpoints_fault(lower, upper) is None && metric != MetricType::L2 ==> (if are_inverted(
                lower,
                upper,
            ) {
                r == Err::<DistanceBand, IndexError>(IndexError::RangeInverted)
            } else {
                r matches Ok(band) && band.well_formed() && band.metric == metric
                    && is_linear_band(band, lower, upper)
            }),
            metric != MetricType::L2 ==> (r matches Ok(band) ==> forall|bits: u32|
                float_bits::is_finite(bits) ==> (#[trigger] band.admits(bits) <==> meets(
                    lower,
                    shown_linear(metric, bits),
                ) && meets(upper, shown_linear(metric, bits)))),
            endpoints_fault(lower, upper) is None && metric == MetricType::L2 ==> match r {
                Ok(band) => {
                    &&& band.well_formed()
                    &&& band.metric == metric
                    &&& is_root_bound(*root, lower, band.lower)
                    &&& is_root_bound(*root, upper, band.upper)
                },
                Err(e) => {
                    ||| e == IndexError::EndpointNoCut && (has_no_root_cut(*root, lower)
                        || has_no_root_cut(*root, upper))
                    ||| e == IndexError::RangeInverted && !has_no_root_cut(*root, lower)
                        && !has_no_root_cut(*root, upper) && is_inverted_root(*root, lower, upper)
                },
            },
            metric == MetricType::L2 ==> (r matches Ok(band) ==> forall|bits: u32|
                bits <= float_bits::MAX_BITS ==> (#[trigger] band.admits(bits) <==> meets(
                    lower,
                    shown_root(*root, bits),
                ) && meets(upper, shown_root(*root, bits)))),
    {
        if metric != MetricType::L2 {
            return Self::from_linear_endpoints(lower, upper, metric);
        }
        check_endpoints(lower, upper)?;
        let low: Bound = resolve_side(root, lower)?;
        let high: Bound = resolve_side(root, upper)?;
        proof {
            assert forall|band: DistanceBand, bits: u32|
                bits <= float_bits::MAX_BITS && band.lower == low && band.upper == high implies (
            #[trigger] band.admits(bits) <==> meets(lower, shown_root(*root, bits)) && meets(
                upper,
                shown_root(*root, bits),
            )) by {
                if let Bound::Finite(cut) = low {
                    lemma_root_side(*root, lower->0, cut, bits);
                }
                if let Bound::Finite(cut) = high {
                    lemma_root_side(*root, upper->0, cut, bits);
                }
            }
        }
        Self::from_raw(low, high, metric)
    }
}

/// The band lies between the cuts of the endpoints, which change places where the shown values have
/// the other sign.
pub open spec fn is_linear_band(
    band: DistanceBand,
    lower: Option<DistanceEndpoint>,
    upper: Option<DistanceEndpoint>,
) -> bool {
    exists|low: Option<Option<u32>>, high: Option<u32>|
        (if band.metric == MetricType::InnerProduct {
            are_cuts(reversed_side(upper), reversed_side(lower), low, high)
        } else {
            are_cuts(lower, upper, low, high)
        }) && band == #[trigger] linear_band(low, high, band.metric)
}

pub open spec fn reversed_side(side: Option<DistanceEndpoint>) -> Option<DistanceEndpoint> {
    match side {
        Some(ep) => Some(reversed(ep)),
        None => None,
    }
}

/// The cut of the lower endpoint is above that of the upper one.
pub open spec fn is_inverted_root<F: Fn(u32) -> u64>(
    f: F,
    lower: Option<DistanceEndpoint>,
    upper: Option<DistanceEndpoint>,
) -> bool {
    exists|low: u32, high: u32|
        #![trigger is_first_root_cut(f, lower->0, Some(low)), is_first_root_cut(f, upper->0, Some(high))]
        lower is Some && upper is Some && is_first_root_cut(f, lower->0, Some(low))
            && is_first_root_cut(f, upper->0, Some(high)) && low > high
}

/// Tells whether a normalized query can be searched for: its norm and all its values are finite.
pub fn check_normalized_query(norm: u32, query: &[u32]) -> (r: Result<(), IndexError>)
    ensures
        r == (if float_bits::is_finite(norm) && float_bits::all_finite(query@) {
            Ok(())
        } else {
            Err(IndexError::NonFiniteQuery)
        }),
{
    if float_bits::check_finite(norm) && check_all_finite(query) {
        Ok(())
    } else {
        Err(IndexError::NonFiniteQuery)
    }
}

/// Tells whether a vector can be compared by its angle: its values and its squared norm are finite.
pub fn checked_cosine_norm(vector: &[u32], norm_squared: u32) -> (r: Result<(), IndexError>)
    ensures
        r == (if float_bits::is_finite(norm_squared) && float_bits::all_finite(vector@) {
            Ok(())
        } else {
            Err(IndexError::NonFiniteCosine)
        }),
{
    if float_bits::check_finite(norm_squared) && check_all_finite(vector) {
        Ok(())
    } else {
        Err(IndexError::NonFiniteCosine)
    }
}

fn check_all_finite(values: &[u32]) -> (r: bool)
    ensures
        r == float_bits::all_finite(values@),
{
    for i in 0..values.len()
        invariant
            forall|k: int| 0 <= k < i ==> float_bits::is_finite(#[trigger] values@[k]),
    {
        if !float_bits::check_finite(values[i]) {
            assert(!float_bits::is_finite(values@[i as int]));
            return false;
        }
    }
    true
}

/// The first list whose distance is not finite.
pub open spec fn is_first_infinite(dists: Seq<u32>, list: int) -> bool {
    &&& 0 <= list < dists.len()
    &&& !float_bits::is_finite(dists[list])
    &&& forall|i: int| 0 <= i < list ==> float_bits::is_finite(#[trigger] dists[i])
}

/// The lists to look into for each query, given its distances to all centroids. Where distances are
/// no squares, a centroid or a distance that is not finite is refused.
pub fn range_probe_lists(
    rows: &Vec<Vec<u32>>,
    centroids: &[u32],
    nprobe: usize,
    metric: MetricType,
) -> (r: Result<Vec<Vec<usize>>, IndexError>)
    requires
        metric == MetricType::L2 ==> kmeans::rows_can_be_ordered(rows@),
    ensures
        r matches Ok(lists) ==> lists@.len() == rows@.len() && forall|i: int|
            0 <= i < rows@.len() ==> (#[trigger] lists@[i])@ == kmeans::nearest_first(
                rows@[i]@,
                nprobe,
            ),
        metric == MetricType::L2 ==> r is Ok,
        metric != MetricType::L2 ==> {
            if !float_bits::all_finite(centroids@) {
                r == Err::<Vec<Vec<usize>>, IndexError>(IndexError::NonFiniteCentroid)
            } else {
                match r {
                    Ok(_) => forall|i: int|
                        0 <= i < rows@.len() ==> float_bits::all_finite((#[trigger] rows@[i])@),
                    Err(e) => exists|i: int, list: usize|
                        0 <= i < rows@.len() && #[trigger] is_first_infinite(
                            rows@[i]@,
                            list as int,
                        ) && e == (IndexError::NonFiniteCentroidDistance { list }) && (forall|
                            j: int,
                        |
                            0 <= j < i ==> float_bits::all_finite((#[trigger] rows@[j])@)),
                }
            }
        },
{
    if metric == MetricType::L2 {
        let (lists, _) = kmeans::find_topk_batch(rows, nprobe);
        return Ok(lists);
    }
    if !check_all_finite(centroids) {
        return Err(IndexError::NonFiniteCentroid);
    }
    for i in 0..rows.len()
        invariant
            float_bits::all_finite(centroids@),
            metric != MetricType::L2,
            forall|j: int| 0 <= j < i ==> float_bits::all_finite((#[trigger] rows@[j])@),
    {
        let n: usize = rows[i].len();
        for list in 0..n
            invariant
                i < rows@.len(),
                n == rows@[i as int]@.len(),
                float_bits::all_finite(centroids@),
                metric != MetricType::L2,
                forall|j: int| 0 <= j < i ==> float_bits::all_finite((#[trigger] rows@[j])@),
                forall|j: int|
                    0 <= j < list ==> float_bits::is_finite(#[trigger] rows@[i as int]@[j]),
        {
            if !float_bits::check_finite(rows[i][list]) {
                assert(is_first_infinite(rows@[i as int]@, list as int));
                return Err(IndexError::NonFiniteCentroidDistance { list });
            }
        }
        assert(float_bits::all_finite(rows@[i as int]@));
    }
    proof {
        assert forall|i: int| 0 <= i < rows@.len() implies kmeans::can_be_ordered(
            (#[trigger] rows@[i])@,
        ) by {
            assert(float_bits::all_finite(rows@[i]@));
        }
    }
    let (lists, _) = kmeans::find_topk_batch(rows, nprobe);
    Ok(lists)
}

/// How a search by distance is run.
#[derive(Debug, Clone, Copy, PartialEq, Eq, Structural)]
pub struct VectorRangeSearchParams {
    pub band: DistanceBand,
    pub nprobe: usize,
}

impl VectorRangeSearchParams {
    pub fn new(band: DistanceBand, nprobe: usize) -> (r: Self)
        ensures
            r == (VectorRangeSearchParams { band, nprobe }),
    {
        VectorRangeSearchParams { band, nprobe }
    }

    pub fn band(&self) -> (r: DistanceBand)
        ensures
            r == self.band,
    {
        self.band
    }

    /// Tells whether the parameters make sense whatever the index.
    pub fn validate_shape(&self) -> (r: Result<(), IndexError>)
        ensures
            r == (if self.nprobe == 0 {
                Err(IndexError::NprobeZero)
            } else {
                Ok(())
            }),
    {
        if self.nprobe == 0 {
            return Err(IndexError::NprobeZero);
        }
        Ok(())
    }

    /// The number of lists to look into: as many as are asked for, or all.
    pub fn validate(&self, nlist: usize) -> (r: Result<usize, IndexError>)
        ensures
            r == (if self.nprobe == 0 {
                Err(IndexError::NprobeZero)
            } else if self.nprobe <= nlist {
                Ok(self.nprobe)
            } else {
                Ok(nlist)
            }),
    {
        self.validate_shape()?;
        if self.nprobe <= nlist {
            Ok(self.nprobe)
        } else {
            Ok(nlist)
        }
    }
}

} // verus!

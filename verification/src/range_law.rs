//! What a search for all rows within a band of distances gives, told by the distances.
use vstd::prelude::*;

use crate::collect;
use crate::distance::MetricType;
use crate::error::IndexError;
use crate::float_bits;
use crate::range;
use crate::range::{Bound, CutOperator, DistanceBand};
use crate::range_result;

verus! {

/// A band holds the finite values from its lower cut on, and those below its upper cut.
pub proof fn bands_are_half_open(band: DistanceBand, value: u32)
    requires
        band.well_formed(),
    ensures
        band.admits(value) <==> {
            &&& float_bits::is_finite(value)
            &&& band.lower matches Bound::Finite(low) ==> !float_bits::lt(value, low)
            &&& band.upper matches Bound::Finite(high) ==> float_bits::lt(value, high)
        },
{
}

/// A band is refused where a cut is not finite, where squared distances are asked to be negative,
/// or where the lower cut is above the upper one; else it is made.
pub proof fn bands_are_refused_where_they_make_no_sense(
    lower: Bound,
    upper: Bound,
    metric: MetricType,
)
    ensures
        range::band_fault(lower, upper, metric) is None <==> {
            &&& lower matches Bound::Finite(low) ==> float_bits::is_finite(low)
            &&& upper matches Bound::Finite(high) ==> float_bits::is_finite(high)
            &&& metric == MetricType::L2 ==> (lower matches Bound::Finite(low) ==> !float_bits::lt(
                low,
                0,
            )) && (upper matches Bound::Finite(high) ==> !float_bits::lt(high, 0))
            &&& lower matches Bound::Finite(low) ==> upper matches Bound::Finite(high)
                ==> !float_bits::lt(high, low)
        },
        range::band_fault(lower, upper, metric) matches Some(e) ==> match e {
            IndexError::RangeCutNotFinite => {
                ||| lower matches Bound::Finite(low) && !float_bits::is_finite(low)
                ||| upper matches Bound::Finite(high) && !float_bits::is_finite(high)
            },
            IndexError::RangeCutNegative => metric == MetricType::L2,
            IndexError::RangeInverted => lower is Finite && upper is Finite,
            _ => false,
        },
{
}

/// An endpoint is met as its operator says.
pub proof fn operators_compare(shown: int, endpoint: int)
    ensures
        range::holds(CutOperator::Ge, shown, endpoint) <==> !(shown < endpoint),
        range::holds(CutOperator::Gt, shown, endpoint) <==> endpoint < shown,
        range::holds(CutOperator::Le, shown, endpoint) <==> !(endpoint < shown),
        range::holds(CutOperator::Lt, shown, endpoint) <==> shown < endpoint,
{
}

/// A row that is offered is kept behind the others where its distance is within the band; else
/// nothing changes.
pub proof fn rows_within_the_band_are_kept(
    band: DistanceBand,
    rows: Seq<(i64, u32)>,
    id: i64,
    value: u32,
)
    requires
        band.well_formed(),
    ensures
        ({
            let within = float_bits::is_finite(value) && (band.lower matches Bound::Finite(low)
                ==> !float_bits::lt(value, low)) && (band.upper matches Bound::Finite(high)
                ==> float_bits::lt(value, high));
            let after = collect::with_row(band, rows, id, value);
            &&& within ==> after.len() == rows.len() + 1 && after.last() == (id, value)
                && after.drop_last() == rows
            &&& !within ==> after == rows
        }),
{
    assert(rows.push((id, value)).drop_last() =~= rows);
}

/// The rows that were offered one after the other.
pub open spec fn offered(
    band: DistanceBand,
    rows: Seq<(i64, u32)>,
    offers: Seq<(i64, u32)>,
) -> Seq<(i64, u32)>
    decreases offers.len(),
{
    if offers.len() == 0 {
        rows
    } else {
        collect::with_row(
            band,
            offered(band, rows, offers.drop_last()),
            offers.last().0,
            offers.last().1,
        )
    }
}

/// Of all rows that are offered, those within the band are there in the end, in their order, and
/// no others.
pub proof fn exactly_the_rows_within_the_band_are_found(
    band: DistanceBand,
    offers: Seq<(i64, u32)>,
)
    requires
        band.well_formed(),
    ensures
        offered(band, Seq::empty(), offers) == offers.filter(
            |row: (i64, u32)|
                float_bits::is_finite(row.1) && (band.lower matches Bound::Finite(low)
                    ==> !float_bits::lt(row.1, low)) && (band.upper matches Bound::Finite(high)
                    ==> float_bits::lt(row.1, high)),
        ),
    decreases offers.len(),
{
    reveal(Seq::filter);
    if offers.len() > 0 {
        exactly_the_rows_within_the_band_are_found(band, offers.drop_last());
        bands_are_half_open(band, offers.last().1);
    }
}

/// The results of many queries: there is a limit more than there are queries, the first is zero and
/// the last is the number of rows, and between two limits stand the ids and the distances of one
/// query, in their order.
pub proof fn each_query_has_its_own_rows(rows: Seq<Seq<(i64, u32)>>, q: int, i: int)
    requires
        range_result::all_rows(rows).len() <= usize::MAX,
        0 <= q < rows.len(),
        0 <= i < rows[q].len(),
    ensures
        ({
            let all = range_result::all_rows(rows);
            let limits = range_result::limits(rows);
            let ids = range_result::ids_of(all);
            let distances = range_result::distances_of(all);
            &&& limits.len() == rows.len() + 1
            &&& limits[0] == 0
            &&& limits[rows.len() as int] == ids.len()
            &&& ids.len() == distances.len()
            &&& limits[q + 1] - limits[q] == rows[q].len()
            &&& ids[limits[q] + i] == rows[q][i].0
            &&& distances[limits[q] + i] == rows[q][i].1
        }),
{
    let all = range_result::all_rows(rows);
    let limits = range_result::limits(rows);
    range_result::queries_do_not_mix(rows, q);
    assert(rows.subrange(0, 0) =~= Seq::<Seq<(i64, u32)>>::empty());
    assert(rows.subrange(0, rows.len() as int) =~= rows);
    range_result::lemma_prefix_rows(rows, q, rows.len() as int);
    range_result::lemma_prefix_rows(rows, q + 1, rows.len() as int);
    range_result::lemma_prefix_rows(rows, q, q + 1);
    let part = all.subrange(limits[q] as int, limits[q + 1] as int);
    assert(part == rows[q]);
    assert(part[i] == all[limits[q] + i]);
}

} // verus!

//! Rows that fall into a band of distances, as a scan comes across them.
use crate::distance::MetricType;
use crate::error::IndexError;
use crate::float_bits;
use crate::range::{Bound, DistanceBand};
use vstd::prelude::*;

verus! {

/// The value above which a sum of squares can be abandoned before it is complete: the upper cut. It
/// is infinite where there is none, and where a sum can still fall.
pub open spec fn abandon_threshold(band: DistanceBand) -> u32 {
    if band.metric != MetricType::L2 {
        float_bits::INFINITY_BITS
    } else {
        match band.upper {
            Bound::Finite(upper) => upper,
            Bound::Unbounded => float_bits::INFINITY_BITS,
        }
    }
}

fn early_abandon_threshold(band: DistanceBand) -> (r: u32)
    ensures
        r == abandon_threshold(band),
{
    if band.metric() != MetricType::L2 {
        return float_bits::INFINITY_BITS;
    }
    match band.raw_upper() {
        Bound::Finite(upper) => upper,
        Bound::Unbounded => float_bits::INFINITY_BITS,
    }
}

/// Abandoning loses nothing: a sum that has gone above the threshold, and that more squares can only
/// make larger, does not end in the band.
pub proof fn abandoned_rows_are_outside(band: DistanceBand, partial: u32, full: u32)
    requires
        band.well_formed(),
        float_bits::lt(abandon_threshold(band), partial),
        !float_bits::lt(full, partial),
    ensures
        !band.admits(full),
{
}

/// The rows of one query that are in the band, in the order in which they came.
pub struct RangeCollector {
    pub band: DistanceBand,
    pub cutoff: u32,
    pub rows: Vec<(i64, u32)>,
    pub scanned: usize,
    pub early_abandoned: usize,
}

/// The rows with the offered one, if it is in the band.
pub open spec fn with_row(
    band: DistanceBand,
    rows: Seq<(i64, u32)>,
    id: i64,
    value: u32,
) -> Seq<(i64, u32)> {
    if band.admits(value) {
        rows.push((id, value))
    } else {
        rows
    }
}

impl RangeCollector {
    /// The threshold is that of the band, only rows in the band are kept, and every row that was
    /// kept or abandoned was counted.
    pub open spec fn well_formed(self) -> bool {
        &&& self.band.well_formed()
        &&& self.cutoff == abandon_threshold(self.band)
        &&& self.rows@.len() + self.early_abandoned <= self.scanned
        &&& forall|i: int| 0 <= i < self.rows@.len() ==> self.band.admits((#[trigger] self.rows@[i]).1)
    }

    pub fn new(band: DistanceBand) -> (r: Self)
        requires
            band.well_formed(),
        ensures
            r.well_formed(),
            r.band == band,
            r.rows@.len() == 0,
            r.scanned == 0,
            r.early_abandoned == 0,
    {
        RangeCollector {
            band,
            cutoff: early_abandon_threshold(band),
            rows: Vec::new(),
            scanned: 0,
            early_abandoned: 0,
        }
    }

    pub fn scanned(&self) -> (r: usize)
        ensures
            r == self.scanned,
    {
        self.scanned
    }

    pub fn early_abandoned(&self) -> (r: usize)
        ensures
            r == self.early_abandoned,
    {
        self.early_abandoned
    }

    pub fn cutoff(&self) -> (r: u32)
        requires
            self.well_formed(),
        ensures
            r == abandon_threshold(self.band),
    {
        self.cutoff
    }

    pub fn into_rows(self) -> (r: Vec<(i64, u32)>)
        ensures
            r@ == self.rows@,
    {
        self.rows
    }

    /// Counts a row that was abandoned.
    pub fn note_abandoned(&mut self)
        requires
            old(self).well_formed(),
            old(self).scanned < usize::MAX,
        ensures
            final(self).well_formed(),
            final(self).band == old(self).band,
            final(self).rows@ == old(self).rows@,
            final(self).scanned == old(self).scanned + 1,
            final(self).early_abandoned == old(self).early_abandoned + 1,
    {
        self.scanned = self.scanned + 1;
        self.early_abandoned = self.early_abandoned + 1;
    }

    /// Takes a row, if it is in the band. A distance that is not finite is refused; the row counts
    /// all the same.
    pub fn push(&mut self, id: i64, value: u32) -> (r: Result<(), IndexError>)
        requires
            old(self).well_formed(),
            old(self).scanned < usize::MAX,
        ensures
            final(self).well_formed(),
            final(self).band == old(self).band,
            final(self).scanned == old(self).scanned + 1,
            final(self).early_abandoned == old(self).early_abandoned,
            final(self).rows@ == with_row(old(self).band, old(self).rows@, id, value),
            r == (if float_bits::is_finite(value) {
                Ok(())
            } else {
                Err(IndexError::NonFiniteDistance { id })
            }),
    {
        self.scanned = self.scanned + 1;
        if !float_bits::check_finite(value) {
            return Err(IndexError::NonFiniteDistance { id });
        }
        if self.band.admit_raw(value) {
            self.rows.push((id, value));
        }
        Ok(())
    }

    /// Takes over what another collector of the same band has.
    pub fn merge(&mut self, other: Self)
        requires
            old(self).well_formed(),
            other.well_formed(),
            other.band == old(self).band,
            old(self).scanned + other.scanned <= usize::MAX,
        ensures
            final(self).well_formed(),
            final(self).band == old(self).band,
            final(self).rows@ == old(self).rows@ + other.rows@,
            final(self).scanned == old(self).scanned + other.scanned,
            final(self).early_abandoned == old(self).early_abandoned + other.early_abandoned,
    {
        let mut rows: Vec<(i64, u32)> = other.rows;
        let ghost all = rows@;
        self.scanned = self.scanned + other.scanned;
        self.early_abandoned = self.early_abandoned + other.early_abandoned;
        let ghost before = self.rows@;
        self.rows.append(&mut rows);
        assert(self.rows@ =~= before + all);
    }
}

} // verus!

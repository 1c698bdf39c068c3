//! Filters on row ids.
use std::collections::HashSet;
use vstd::prelude::*;
use vstd::std_specs::hash;

use crate::error::IndexError;

verus! {

/// Decides which rows may be found.
pub trait RowIdFilter {
    /// The rows that may be found.
    spec fn admits(&self, id: i64) -> bool;

    fn contains(&self, id: i64) -> (r: bool)
        ensures
            r == self.admits(id),
    ;
}

/// The compressed bitmap of the `roaring` crate.
#[verifier::external_type_specification]
#[verifier::external_body]
pub struct ExRoaringTreemap(roaring::RoaringTreemap);

/// The numbers in a bitmap.
pub uninterp spec fn treemap_values(map: roaring::RoaringTreemap) -> Set<u64>;

/// The numbers in the bitmap that the bytes are the stored form of; none where they are not the
/// stored form of a bitmap.
pub uninterp spec fn stored_treemap(bytes: Seq<u8>) -> Option<Set<u64>>;

/// `RoaringTreemap::deserialize_from` on a byte slice. Whether it succeeds, and which numbers the
/// bitmap then holds, depends on the bytes alone; what the stored form looks like is left unsaid.
#[verifier::external_body]
fn read_treemap(bytes: &[u8]) -> (r: Option<roaring::RoaringTreemap>)
    ensures
        match r {
            Some(map) => stored_treemap(bytes@) == Some(treemap_values(map)),
            None => stored_treemap(bytes@) is None,
        },
{
    roaring::RoaringTreemap::deserialize_from(bytes).ok()
}

/// `RoaringTreemap::contains`: whether the number is in the bitmap.
#[verifier::external_body]
fn treemap_contains(map: &roaring::RoaringTreemap, value: u64) -> (r: bool)
    ensures
        r == treemap_values(*map).contains(value),
{
    map.contains(value)
}

impl RowIdFilter for roaring::RoaringTreemap {
    /// Negative ids are in no bitmap.
    open spec fn admits(&self, id: i64) -> bool {
        id >= 0 && treemap_values(*self).contains(id as u64)
    }

    fn contains(&self, id: i64) -> (r: bool) {
        id >= 0 && treemap_contains(self, id as u64)
    }
}

impl RowIdFilter for HashSet<i64> {
    open spec fn admits(&self, id: i64) -> bool {
        self@.contains(id)
    }

    fn contains(&self, id: i64) -> (r: bool) {
        broadcast use hash::group_hash_axioms;

        HashSet::contains(self, &id)
    }
}

/// Whether a row passes the filter; without a filter every row does.
pub open spec fn passes<T: RowIdFilter>(filter: Option<&T>, id: i64) -> bool {
    match filter {
        Some(f) => f.admits(id),
        None => true,
    }
}

/// Tells whether a row passes the filter.
pub fn row_passes<T: RowIdFilter>(filter: Option<&T>, id: i64) -> (r: bool)
    ensures
        r == passes(filter, id),
{
    match filter {
        Some(f) => f.contains(id),
        None => true,
    }
}

/// The filter that the bytes are the stored form of.
pub fn decode_roaring_filter(bytes: &[u8]) -> (r: Result<roaring::RoaringTreemap, IndexError>)
    ensures
        match r {
            Ok(map) => stored_treemap(bytes@) == Some(treemap_values(map)),
            Err(e) => stored_treemap(bytes@) is None && e == IndexError::RoaringFilter,
        },
{
    match read_treemap(bytes) {
        Some(map) => Ok(map),
        None => Err(IndexError::RoaringFilter),
    }
}

} // verus!

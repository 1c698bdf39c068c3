use paimon_vindex_core::hnsw_search::has_at_most_matching_ids;
use paimon_vindex_core::row_id_filter::RowIdFilter;
use std::sync::atomic::{AtomicUsize, Ordering};

struct CountingFilter {
    calls: AtomicUsize,
    matches: fn(i64) -> bool,
}

impl CountingFilter {
    fn new(matches: fn(i64) -> bool) -> Self {
        Self {
            calls: AtomicUsize::new(0),
            matches,
        }
    }

    fn calls(&self) -> usize {
        self.calls.load(Ordering::Relaxed)
    }
}

impl RowIdFilter for CountingFilter {
    fn admits(&self, _id: i64) -> bool {
        unreachable!()
    }

    fn contains(&self, id: i64) -> bool {
        self.calls.fetch_add(1, Ordering::Relaxed);
        (self.matches)(id)
    }
}

#[test]
fn test_matching_id_count_at_limit_checks_all_ids() {
    let first_ids = [0, 1, 2, 3];
    let second_ids = [4, 5, 6, 7, 8, 9];
    let lists = [first_ids.as_slice(), second_ids.as_slice()];
    let filter = CountingFilter::new(|_| true);

    assert!(has_at_most_matching_ids(&lists, &filter, 10));
    assert_eq!(filter.calls(), 10);
}

#[test]
fn test_matching_id_count_stops_after_limit_is_exceeded() {
    let first_ids: Vec<i64> = (0..100).collect();
    let second_ids: Vec<i64> = (100..200).collect();
    let lists = [first_ids.as_slice(), second_ids.as_slice()];
    let filter = CountingFilter::new(|id| id % 2 == 0);

    assert!(!has_at_most_matching_ids(&lists, &filter, 10));
    assert_eq!(filter.calls(), 21);
}

#[test]
fn test_matching_id_count_with_zero_limit() {
    let ids = [1, 2, 3];
    let lists = [ids.as_slice()];
    let filter = CountingFilter::new(|id| id == 2);

    assert!(!has_at_most_matching_ids(&lists, &filter, 0));
    assert_eq!(filter.calls(), 2);
}

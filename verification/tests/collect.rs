use paimon_vindex_core::collect::RangeCollector;
use paimon_vindex_core::distance::MetricType;
use paimon_vindex_core::error::{ErrorKind, IndexError};
use paimon_vindex_core::range::{Bound, DistanceBand};

fn band(lower: Bound, upper: Bound, metric: MetricType) -> DistanceBand {
    DistanceBand::from_raw(lower, upper, metric).unwrap()
}

fn finite(value: f32) -> Bound {
    Bound::Finite(value.to_bits())
}

fn l2_band(lower: f32, upper: f32) -> DistanceBand {
    band(finite(lower), finite(upper), MetricType::L2)
}

#[test]
fn a_range_collector_keeps_only_in_band_rows() {
    let mut collector = RangeCollector::new(l2_band(1.0, 3.0));
    collector.push(10, 0.5f32.to_bits()).unwrap();
    collector.push(11, 1.0f32.to_bits()).unwrap();
    collector.push(12, 2.9f32.to_bits()).unwrap();
    collector.push(13, 3.0f32.to_bits()).unwrap();
    assert_eq!(
        collector.into_rows(),
        vec![(11, 1.0f32.to_bits()), (12, 2.9f32.to_bits())]
    );
}

#[test]
fn an_exact_l2_collector_prunes_at_the_raw_upper_cut() {
    for upper in [
        f32::from_bits(1),
        f32::MIN_POSITIVE,
        1.0e-20,
        0.5,
        3.0,
        1.0e30,
    ] {
        assert_eq!(
            RangeCollector::new(l2_band(0.0, upper)).cutoff(),
            upper.to_bits(),
            "upper={upper:e}"
        );
    }
}

#[test]
fn an_unbounded_upper_reports_no_cutoff() {
    let band = band(finite(1.0), Bound::Unbounded, MetricType::L2);
    assert_eq!(
        f32::from_bits(RangeCollector::new(band).cutoff()),
        f32::INFINITY
    );
}

#[test]
fn a_non_l2_metric_never_prunes_on_a_partial_sum() {
    for metric in [MetricType::Cosine, MetricType::InnerProduct] {
        let band = band(finite(0.1), finite(0.5), metric);
        assert_eq!(
            f32::from_bits(RangeCollector::new(band).cutoff()),
            f32::INFINITY,
            "metric {metric:?} must not expose a finite cutoff"
        );
    }
}

#[test]
fn the_collector_rejects_a_non_finite_computed_value() {
    let mut collector = RangeCollector::new(l2_band(0.0, 10.0));
    assert!(collector.push(1, f32::NAN.to_bits()).is_err());
    assert!(collector.push(2, f32::INFINITY.to_bits()).is_err());
    let err = collector
        .push(3, f32::NEG_INFINITY.to_bits())
        .unwrap_err();
    assert_eq!(err, IndexError::NonFiniteDistance { id: 3 });
    assert_eq!(err.kind(), ErrorKind::InvalidData);
    assert_eq!(collector.scanned(), 3);
}

#[test]
fn early_abandoned_rows_are_counted_as_scanned() {
    let mut collector = RangeCollector::new(l2_band(1.0, 2.0));
    collector.note_abandoned();
    collector.push(1, 1.5f32.to_bits()).unwrap();
    assert_eq!(collector.scanned(), 2);
    assert_eq!(collector.early_abandoned(), 1);
}

#[test]
fn rows_are_counted_even_when_rejected() {
    let mut collector = RangeCollector::new(l2_band(1.0, 2.0));
    collector.push(1, 0.0f32.to_bits()).unwrap();
    collector.push(2, 1.5f32.to_bits()).unwrap();
    assert_eq!(collector.scanned(), 2);
}

#[test]
fn collectors_are_merged_in_order() {
    let mut first = RangeCollector::new(l2_band(1.0, 2.0));
    first.push(1, 1.5f32.to_bits()).unwrap();
    let mut second = RangeCollector::new(l2_band(1.0, 2.0));
    second.note_abandoned();
    second.push(2, 1.25f32.to_bits()).unwrap();
    first.merge(second);
    assert_eq!(first.scanned(), 3);
    assert_eq!(first.early_abandoned(), 1);
    assert_eq!(
        first.into_rows(),
        vec![(1, 1.5f32.to_bits()), (2, 1.25f32.to_bits())]
    );
}

#[test]
fn what_is_above_the_cutoff_is_outside() {
    let band = l2_band(1.0, 2.0);
    let cutoff = RangeCollector::new(band).cutoff();
    assert!(!band.admit_raw(cutoff));
    assert!(!band.admit_raw(cutoff + 1));
    assert!(band.admit_raw(cutoff - 1));
}

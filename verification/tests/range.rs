use paimon_vindex_core::distance::MetricType;
use paimon_vindex_core::error::{ErrorKind, IndexError};
use paimon_vindex_core::range::{
    check_normalized_query, checked_cosine_norm, range_probe_lists, Bound, CutOperator,
    DistanceBand, DistanceEndpoint, VectorRangeSearchParams,
};
use paimon_vindex_core::range_result::RangeResultBuilder;
use paimon_vindex_core::widening::widen;

fn finite(value: f32) -> Bound {
    Bound::Finite(value.to_bits())
}

fn raw(lower: Bound, upper: Bound, metric: MetricType) -> Result<DistanceBand, IndexError> {
    DistanceBand::from_raw(lower, upper, metric)
}

fn admits(band: &DistanceBand, value: f32) -> bool {
    band.admit_raw(value.to_bits())
}

fn endpoint(value: f64, op: CutOperator) -> DistanceEndpoint {
    DistanceEndpoint {
        value: value.to_bits(),
        op,
    }
}

fn root_bits(bits: u32) -> u64 {
    f64::from(f32::from_bits(bits).sqrt()).to_bits()
}

fn from_endpoints(
    lower: Option<DistanceEndpoint>,
    upper: Option<DistanceEndpoint>,
    metric: MetricType,
) -> Result<DistanceBand, IndexError> {
    DistanceBand::from_endpoints(lower, upper, metric, &root_bits)
}

fn public(bits: u32) -> f64 {
    f64::from(f32::from_bits(bits).sqrt())
}

fn public_distance(metric: MetricType, raw: f32) -> f64 {
    match metric {
        MetricType::L2 => f64::from(raw.sqrt()),
        MetricType::Cosine => f64::from(raw),
        MetricType::InnerProduct => -f64::from(raw),
    }
}

fn cut_of(value: f64, op: CutOperator) -> f32 {
    let band = from_endpoints(Some(endpoint(value, op)), None, MetricType::L2).unwrap();
    match band.raw_lower() {
        Bound::Finite(cut) => f32::from_bits(cut),
        Bound::Unbounded => panic!("lower must be finite"),
    }
}

#[test]
fn a_finite_l2_band_is_left_closed_right_open() {
    let band = raw(finite(1.0), finite(3.0), MetricType::L2).unwrap();
    assert!(!admits(&band, 0.999));
    assert!(admits(&band, 1.0), "the lower end is closed");
    assert!(admits(&band, 2.999));
    assert!(!admits(&band, 3.0), "the upper end is open");
}

#[test]
fn unboundedness_is_structural_not_a_sentinel() {
    let band = raw(Bound::Unbounded, finite(0.5), MetricType::Cosine).unwrap();
    assert!(
        admits(&band, -1.1920929e-7),
        "an unbounded lower end must admit a slightly negative cosine distance"
    );
    let band = raw(finite(0.0), Bound::Unbounded, MetricType::InnerProduct).unwrap();
    assert!(
        admits(&band, f32::MAX),
        "an unbounded upper end must admit f32::MAX"
    );
}

#[test]
fn no_band_admits_a_non_finite_value() {
    let whole = raw(Bound::Unbounded, Bound::Unbounded, MetricType::L2).unwrap();
    let lower_open = raw(Bound::Unbounded, finite(1.0), MetricType::L2).unwrap();
    let upper_open = raw(finite(0.0), Bound::Unbounded, MetricType::L2).unwrap();
    let closed = raw(finite(0.0), finite(1.0), MetricType::L2).unwrap();
    for band in [whole, lower_open, upper_open, closed] {
        for value in [f32::NAN, f32::INFINITY, f32::NEG_INFINITY] {
            assert!(!admits(&band, value), "{band:?} must not admit {value}");
        }
    }
}

#[test]
fn a_whole_space_band_admits_everything_finite() {
    let band = raw(Bound::Unbounded, Bound::Unbounded, MetricType::L2).unwrap();
    assert!(admits(&band, 0.0) && admits(&band, f32::MAX) && !band.is_empty());
}

#[test]
fn an_inverted_or_non_finite_band_fails_loud() {
    assert!(raw(finite(5.0), finite(3.0), MetricType::L2).is_err());
    assert!(raw(finite(f32::NAN), finite(3.0), MetricType::L2).is_err());
    assert!(raw(finite(0.0), finite(f32::INFINITY), MetricType::L2).is_err());
    assert!(
        raw(finite(-1.0), finite(3.0), MetricType::L2).is_err(),
        "L2 is a squared distance, so a negative cut is illegal"
    );
}

#[test]
fn faults_of_bands_have_their_errors() {
    assert_eq!(
        raw(finite(5.0), finite(3.0), MetricType::L2),
        Err(IndexError::RangeInverted)
    );
    assert_eq!(
        raw(finite(1.0), finite(f32::NAN), MetricType::Cosine),
        Err(IndexError::RangeCutNotFinite)
    );
    assert_eq!(
        raw(finite(-1.0), finite(3.0), MetricType::L2),
        Err(IndexError::RangeCutNegative)
    );
    assert!(raw(finite(-1.0), finite(3.0), MetricType::Cosine).is_ok());
    assert!(raw(finite(-0.0), finite(3.0), MetricType::L2).is_ok());
}

#[test]
fn an_empty_band_is_legal_and_admits_nothing() {
    let band = raw(finite(2.0), finite(2.0), MetricType::L2).unwrap();
    assert!(band.is_empty());
    assert!(!admits(&band, 2.0));
}

#[test]
fn all_metrics_accept_positive_probe_widths() {
    for metric in [MetricType::L2, MetricType::Cosine, MetricType::InnerProduct] {
        let band = raw(Bound::Unbounded, Bound::Unbounded, metric).unwrap();
        assert_eq!(
            VectorRangeSearchParams::new(band, 3).validate(2).unwrap(),
            2
        );
    }
}

#[test]
fn a_lower_side_rejects_upper_side_operators() {
    let ep = endpoint(0.5, CutOperator::Lt);
    let err = from_endpoints(Some(ep), None, MetricType::L2).unwrap_err();
    assert_eq!(err.kind(), ErrorKind::InvalidInput);
    let ep = endpoint(0.5, CutOperator::Ge);
    assert!(from_endpoints(None, Some(ep), MetricType::L2).is_err());
}

#[test]
fn a_wrong_side_operator_is_invalid_for_every_metric() {
    for metric in [MetricType::Cosine, MetricType::InnerProduct] {
        let ep = endpoint(0.5, CutOperator::Lt);
        let err = from_endpoints(Some(ep), None, metric).unwrap_err();
        assert_eq!(
            err.kind(),
            ErrorKind::InvalidInput,
            "lower side with Lt on metric {metric:?}"
        );
        let ep = endpoint(0.5, CutOperator::Ge);
        let err = from_endpoints(None, Some(ep), metric).unwrap_err();
        assert_eq!(
            err.kind(),
            ErrorKind::InvalidInput,
            "upper side with Ge on metric {metric:?}"
        );
    }
}

#[test]
fn a_missing_side_is_unbounded_not_a_sentinel() {
    let ep = endpoint(0.5, CutOperator::Lt);
    let band = from_endpoints(None, Some(ep), MetricType::L2).unwrap();
    assert_eq!(band.raw_lower(), Bound::Unbounded);
    let band = from_endpoints(None, None, MetricType::L2).unwrap();
    assert_eq!(
        (band.raw_lower(), band.raw_upper()),
        (Bound::Unbounded, Bound::Unbounded)
    );
}

#[test]
fn linear_endpoint_derivation_preserves_public_comparisons() {
    for metric in [MetricType::Cosine, MetricType::InnerProduct] {
        let ep = endpoint(0.5, CutOperator::Ge);
        let band = from_endpoints(Some(ep), None, metric).unwrap();
        for distance in [-1.0, -0.5, 0.0, 0.5, 1.0] {
            assert_eq!(
                admits(&band, distance),
                public_distance(metric, distance) >= 0.5
            );
        }
    }
}

#[test]
fn every_linear_operator_preserves_public_comparisons() {
    let tiny = f64::from(f32::from_bits(1));
    let values = [
        -f32::MAX,
        -1.5,
        -0.1,
        -f32::from_bits(3),
        -0.0,
        0.0,
        f32::from_bits(1),
        f32::from_bits(0x7f_ffff),
        f32::MIN_POSITIVE,
        0.1,
        0.30000001,
        2.0,
        f32::MAX,
    ];
    let ends = [
        -1.0e300,
        -1.5,
        -0.1,
        -tiny * 2.5,
        -0.0,
        tiny * 0.5,
        tiny,
        0.1,
        f64::from(0.1f32),
        0.3,
        2.0,
        f64::from(f32::MAX),
        1.0e300,
    ];
    for metric in [MetricType::Cosine, MetricType::InnerProduct] {
        for end in ends {
            let ge = from_endpoints(Some(endpoint(end, CutOperator::Ge)), None, metric).unwrap();
            let gt = from_endpoints(Some(endpoint(end, CutOperator::Gt)), None, metric).unwrap();
            let le = from_endpoints(None, Some(endpoint(end, CutOperator::Le)), metric).unwrap();
            let lt = from_endpoints(None, Some(endpoint(end, CutOperator::Lt)), metric).unwrap();
            for value in values {
                let shown = public_distance(metric, value);
                assert_eq!(admits(&ge, value), shown >= end, "{shown} >= {end}");
                assert_eq!(admits(&gt, value), shown > end, "{shown} > {end}");
                assert_eq!(admits(&le, value), shown <= end, "{shown} <= {end}");
                assert_eq!(admits(&lt, value), shown < end, "{shown} < {end}");
            }
        }
    }
}

#[test]
fn widening_is_what_the_processor_does() {
    for bits in [
        0u32,
        1,
        2,
        3,
        0x40_0000,
        0x7f_ffff,
        0x80_0000,
        0x80_0001,
        0x3f80_0000,
        0x3f99_999a,
        0x7f7f_ffff,
    ] {
        for signed in [bits, bits | 0x8000_0000] {
            assert_eq!(
                widen(signed),
                f64::from(f32::from_bits(signed)).to_bits(),
                "{signed:#x}"
            );
        }
    }
}

#[test]
fn a_non_finite_endpoint_is_invalid_input_and_outranks_the_metric_check() {
    for value in [f64::NAN, f64::INFINITY, f64::NEG_INFINITY] {
        for metric in [MetricType::L2, MetricType::Cosine, MetricType::InnerProduct] {
            let ep = endpoint(value, CutOperator::Ge);
            let err = from_endpoints(Some(ep), None, metric).unwrap_err();
            assert_eq!(
                err.kind(),
                ErrorKind::InvalidInput,
                "endpoint {value} / metric {metric:?}"
            );
        }
    }
}

#[test]
fn first_ge_is_minimal() {
    for value in [0.25_f64, 0.5, 0.2_f64.sqrt(), 1.0, 3.0] {
        let bits = cut_of(value, CutOperator::Ge).to_bits();
        assert!(
            public(bits) >= value,
            "value {value}: the cut itself must be admitted"
        );
        assert!(
            bits == 0 || public(bits - 1) < value,
            "value {value}: the preceding f32 must be excluded, else the cut is not minimal"
        );
    }
}

#[test]
fn first_gt_is_minimal() {
    for value in [0.25_f64, 0.5, 0.2_f64.sqrt(), 1.0, 3.0] {
        let bits = cut_of(value, CutOperator::Gt).to_bits();
        assert!(
            public(bits) > value,
            "value {value}: the cut itself must be strictly greater than the endpoint"
        );
        assert!(
            bits == 0 || public(bits - 1) <= value,
            "value {value}: the preceding f32 must not satisfy strict greater-than"
        );
    }
}

#[test]
fn upper_side_cuts_are_minimal_excluded_values() {
    let upper_cut = |value: f64, op: CutOperator| -> f32 {
        let band = from_endpoints(None, Some(endpoint(value, op)), MetricType::L2).unwrap();
        match band.raw_upper() {
            Bound::Finite(cut) => f32::from_bits(cut),
            Bound::Unbounded => panic!("upper must be finite"),
        }
    };
    let on_plateau = public(0x3d80_0000);
    let lt = upper_cut(on_plateau, CutOperator::Lt).to_bits();
    assert!(public(lt) >= on_plateau && (lt == 0 || public(lt - 1) < on_plateau));
    let le = upper_cut(on_plateau, CutOperator::Le).to_bits();
    assert!(public(le) > on_plateau && (le == 0 || public(le - 1) <= on_plateau));
    assert!(
        le > lt,
        "with the endpoint on a plateau, `<=` must exclude later than `<`"
    );
}

#[test]
fn a_two_sided_band_admits_exactly_the_intended_rows() {
    let lower = endpoint(0.5, CutOperator::Ge);
    let upper = endpoint(1.5, CutOperator::Lt);
    let band = from_endpoints(Some(lower), Some(upper), MetricType::L2).unwrap();
    let (lo, hi) = match (band.raw_lower(), band.raw_upper()) {
        (Bound::Finite(lo), Bound::Finite(hi)) => (lo, hi),
        _ => panic!("both cuts must be finite"),
    };
    assert!(!band.admit_raw(lo - 1));
    assert!(band.admit_raw(lo));
    assert!(band.admit_raw(hi - 1));
    assert!(!band.admit_raw(hi));
}

#[test]
fn gt_never_precedes_ge_and_they_coincide_off_plateau() {
    let on_plateau = public(0x3d80_0000);
    assert!(cut_of(on_plateau, CutOperator::Gt) > cut_of(on_plateau, CutOperator::Ge));

    let between = public(0x3d80_0000) + (public(0x3d80_0002) - public(0x3d80_0000)) / 2.0;
    assert_eq!(
        cut_of(between, CutOperator::Gt),
        cut_of(between, CutOperator::Ge)
    );
}

#[test]
fn an_endpoint_with_no_representable_cut_is_unsupported() {
    let ep = endpoint(1.0e30, CutOperator::Ge);
    let err = from_endpoints(Some(ep), None, MetricType::L2).unwrap_err();
    assert_eq!(err.kind(), ErrorKind::Unsupported);
}

#[test]
fn a_negative_endpoint_is_admitted_and_clamps_to_zero() {
    let ep = endpoint(-1.0, CutOperator::Ge);
    let band = from_endpoints(Some(ep), None, MetricType::L2).unwrap();
    assert_eq!(
        band.raw_lower(),
        finite(0.0),
        "every distance is >= a negative endpoint"
    );
}

#[test]
fn endpoints_in_the_wrong_order_are_refused() {
    let low = Some(endpoint(2.0, CutOperator::Ge));
    let high = Some(endpoint(1.0, CutOperator::Le));
    for metric in [MetricType::L2, MetricType::Cosine, MetricType::InnerProduct] {
        assert_eq!(
            from_endpoints(low, high, metric),
            Err(IndexError::RangeInverted)
        );
    }
    let none = from_endpoints(
        Some(endpoint(1.0, CutOperator::Gt)),
        Some(endpoint(1.0, CutOperator::Lt)),
        MetricType::Cosine,
    )
    .unwrap();
    assert!(none.is_empty());
    let beyond = from_endpoints(
        Some(endpoint(1.0e300, CutOperator::Gt)),
        None,
        MetricType::Cosine,
    )
    .unwrap();
    assert!(beyond.is_empty());
    let all = from_endpoints(
        None,
        Some(endpoint(1.0e300, CutOperator::Le)),
        MetricType::Cosine,
    )
    .unwrap();
    assert_eq!(all.raw_upper(), Bound::Unbounded);
    assert_eq!(
        from_endpoints(Some(endpoint(0.0, CutOperator::Le)), None, MetricType::L2),
        Err(IndexError::LowerOperator)
    );
    assert_eq!(
        from_endpoints(None, Some(endpoint(0.0, CutOperator::Gt)), MetricType::L2),
        Err(IndexError::UpperOperator)
    );
    assert_eq!(
        from_endpoints(
            None,
            Some(endpoint(f64::NAN, CutOperator::Gt)),
            MetricType::L2
        ),
        Err(IndexError::EndpointNotFinite)
    );
    assert_eq!(
        from_endpoints(
            None,
            Some(endpoint(1.0e30, CutOperator::Lt)),
            MetricType::L2
        ),
        Err(IndexError::EndpointNoCut)
    );
}

fn bits(values: &[f32]) -> Vec<u32> {
    values.iter().map(|value| value.to_bits()).collect()
}

#[test]
fn csr_slices_line_up_with_lims() {
    let mut builder = RangeResultBuilder::new(2);
    builder.push_row(0, 10, 1.5f32.to_bits());
    builder.push_row(1, 20, 3.5f32.to_bits());
    builder.push_row(0, 11, 2.5f32.to_bits());
    let result = builder.build();
    assert_eq!(result.query(0).labels, &[10, 11]);
    assert_eq!(result.query(0).raw_distances, &bits(&[1.5, 2.5])[..]);
    assert_eq!(result.query(1).labels, &[20]);
    assert_eq!(result.query(1).raw_distances, &bits(&[3.5])[..]);
    assert_eq!(result.lims(), &[0, 2, 3]);
    assert_eq!(result.labels(), &[10, 11, 20]);
    assert_eq!(result.raw_distances(), &bits(&[1.5, 2.5, 3.5])[..]);
    assert_eq!(result.query_count(), 2);
}

#[test]
fn a_query_with_no_hits_yields_empty_slices() {
    let result = RangeResultBuilder::new(1).build();
    assert!(result.query(0).labels.is_empty() && result.query(0).raw_distances.is_empty());
    assert_eq!(result.call_stats().list_reads(), 0);
}

#[test]
fn per_query_stats_are_independent() {
    let mut builder = RangeResultBuilder::new(2);
    builder.record_scanned(0, 7);
    builder.record_scanned(1, 3);
    let result = builder.build();
    assert_eq!(result.query(0).stats.rows_scanned(), 7);
    assert_eq!(result.query(1).stats.rows_scanned(), 3);
}

#[test]
fn counters_add_up() {
    let mut builder = RangeResultBuilder::new(2);
    builder.take_rows(1, vec![(5, 1), (6, 2)]);
    builder.take_rows(1, vec![(7, 3)]);
    builder.record_lists_probed(1, 4);
    builder.record_early_abandoned(1, 2);
    builder.record_list_read();
    builder.record_list_read();
    let result = builder.build();
    let query = result.query(1);
    assert_eq!(query.labels, &[5, 6, 7]);
    assert_eq!(query.stats.rows_committed(), 3);
    assert_eq!(query.stats.lists_probed(), 4);
    assert_eq!(query.stats.early_abandoned(), 2);
    assert_eq!(result.query(0).stats.rows_committed(), 0);
    assert_eq!(result.call_stats().list_reads(), 2);
}

fn l2_band_for_params() -> DistanceBand {
    raw(finite(0.0), finite(1.0), MetricType::L2).unwrap()
}

#[test]
fn a_fixed_width_clamps_to_nlist_like_top_k_does() {
    let params = VectorRangeSearchParams::new(l2_band_for_params(), 4096);
    assert_eq!(
        params.validate(1024).unwrap(),
        1024,
        "matches the width.min(nlist) clamp in index.rs"
    );
}

#[test]
fn a_zero_nprobe_is_invalid_input() {
    let params = VectorRangeSearchParams::new(l2_band_for_params(), 0);
    assert_eq!(
        params.validate(1024).unwrap_err().kind(),
        ErrorKind::InvalidInput
    );
}

#[test]
fn a_zero_nprobe_is_invalid_for_every_metric() {
    for metric in [MetricType::Cosine, MetricType::InnerProduct] {
        let band = raw(finite(0.0), finite(1.0), metric).unwrap();
        let err = VectorRangeSearchParams::new(band, 0)
            .validate(1024)
            .unwrap_err();
        assert_eq!(
            err.kind(),
            ErrorKind::InvalidInput,
            "nprobe == 0 on metric {metric:?}"
        );
    }
}

fn squared(a: &[f32], b: &[f32]) -> f32 {
    a.iter().zip(b).map(|(x, y)| (x - y) * (x - y)).sum()
}

fn rows_of(queries: &[f32], centroids: &[f32], dimension: usize) -> Vec<Vec<u32>> {
    queries
        .chunks_exact(dimension)
        .map(|query| {
            centroids
                .chunks_exact(dimension)
                .map(|centroid| squared(query, centroid).to_bits())
                .collect()
        })
        .collect()
}

#[test]
fn range_probe_lists_non_l2_preserves_order_and_ties_at_parallel_threshold() {
    let dimension = 64;
    for metric in [MetricType::Cosine, MetricType::InnerProduct] {
        for (query_count, nlist) in [(1, 128), (15, 128), (16, 128), (17, 128), (1, 2048)] {
            let mut centroids = vec![0.0f32; nlist * dimension];
            for list in 0..nlist {
                centroids[list * dimension + (list / 2) % dimension] = 1.0;
            }
            let mut queries = vec![0.0f32; query_count * dimension];
            for query_index in 0..query_count {
                queries[query_index * dimension + (query_index * 7 + 3) % dimension] = 1.0;
            }
            let rows = rows_of(&queries, &centroids, dimension);
            for nprobe in [1, 3, nlist + 1] {
                let expected = (0..query_count)
                    .map(|query_index| {
                        let coordinate = (query_index * 7 + 3) % dimension;
                        (0..nlist)
                            .filter(|list| (list / 2) % dimension == coordinate)
                            .chain((0..nlist).filter(|list| (list / 2) % dimension != coordinate))
                            .take(nprobe)
                            .collect::<Vec<_>>()
                    })
                    .collect::<Vec<_>>();
                let actual = range_probe_lists(&rows, &bits(&centroids), nprobe, metric).unwrap();
                assert_eq!(
                    actual, expected,
                    "{metric:?}, {query_count}, {nlist}, {nprobe}"
                );
            }
        }
    }
}

#[test]
fn range_probe_lists_non_l2_parallel_batches_reject_invalid_distances() {
    let dimension = 64;
    let nlist = 128;
    let query_count = 16;
    for metric in [MetricType::Cosine, MetricType::InnerProduct] {
        for (late_query, far_centroid, diagnostic) in [
            (0.0, f32::NAN, IndexError::NonFiniteCentroid),
            (0.0, f32::INFINITY, IndexError::NonFiniteCentroid),
            (0.0, f32::NEG_INFINITY, IndexError::NonFiniteCentroid),
            (
                1e20,
                0.0,
                IndexError::NonFiniteCentroidDistance { list: 0 },
            ),
            (
                0.0,
                1e20,
                IndexError::NonFiniteCentroidDistance { list: 127 },
            ),
        ] {
            let mut queries = vec![0.0f32; query_count * dimension];
            queries[(query_count - 1) * dimension] = late_query;
            let mut centroids = vec![0.0f32; nlist * dimension];
            centroids[(nlist - 1) * dimension] = far_centroid;
            assert!(queries.iter().all(|value| value.is_finite()));
            let rows = rows_of(&queries, &centroids, dimension);
            if late_query != 0.0 {
                let mut early = rows.clone();
                early.pop();
                assert!(range_probe_lists(&early, &bits(&centroids), 1, metric).is_ok());
            }
            let error = range_probe_lists(&rows, &bits(&centroids), 1, metric).unwrap_err();
            assert_eq!(error.kind(), ErrorKind::InvalidData);
            assert_eq!(error, diagnostic);
        }
    }
}

#[test]
fn squared_distances_are_probed_nearest_first() {
    let rows = vec![bits(&[3.0, 1.0, 2.0, 1.0])];
    let lists = range_probe_lists(&rows, &[], 3, MetricType::L2).unwrap();
    assert_eq!(lists, vec![vec![1, 3, 2]]);
}

#[test]
fn queries_and_vectors_with_infinite_values_are_refused() {
    let one = 1.0f32.to_bits();
    let infinite = f32::INFINITY.to_bits();
    assert_eq!(check_normalized_query(one, &[one, 0]), Ok(()));
    assert_eq!(
        check_normalized_query(infinite, &[one]),
        Err(IndexError::NonFiniteQuery)
    );
    assert_eq!(
        check_normalized_query(one, &[one, f32::NAN.to_bits()]),
        Err(IndexError::NonFiniteQuery)
    );
    assert_eq!(checked_cosine_norm(&[one], one), Ok(()));
    assert_eq!(
        checked_cosine_norm(&[infinite], one),
        Err(IndexError::NonFiniteCosine)
    );
    assert_eq!(
        checked_cosine_norm(&[one], infinite),
        Err(IndexError::NonFiniteCosine)
    );
}

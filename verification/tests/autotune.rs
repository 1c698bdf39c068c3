use paimon_vindex_core::autotune::{
    default_training_vector_count, diskann_build_preset, infer_diskann_l_search, infer_ivf_nlist,
    infer_ivf_nprobe, infer_rq_bits, recommend_index, select_calibrated_candidate, AutoValue,
    DiskAnnBuildDistance, DiskAnnBuildPreset, DiskAnnRawVectorEncoding, DiskAnnStorageLayout,
    RecallCandidate, TuningObjective,
};
use paimon_vindex_core::error::{ErrorKind, IndexError};
use paimon_vindex_core::index::IndexType;
use paimon_vindex_core::read_options::StorageProfile;

#[test]
fn automatic_nlist_is_power_of_two_and_keeps_training_density() {
    assert_eq!(infer_ivf_nlist(1_000_000).unwrap(), 1024);
    assert_eq!(infer_ivf_nlist(1_183_514).unwrap(), 1024);
    assert_eq!(infer_ivf_nlist(10).unwrap(), 1);
    assert!(infer_ivf_nlist(0).is_err());
}

#[test]
fn automatic_training_count_is_bounded_and_overflow_checked() {
    assert_eq!(
        default_training_vector_count(1_000_000, 1024).unwrap(),
        65_536
    );
    assert_eq!(
        default_training_vector_count(1_000_000, 4096).unwrap(),
        262_144
    );
    assert_eq!(default_training_vector_count(10_000, 1024).unwrap(), 10_000);
    assert!(default_training_vector_count(usize::MAX, usize::MAX).is_err());
}

#[test]
fn automatic_nprobe_scales_for_lists_topk_and_filters() {
    assert_eq!(infer_ivf_nprobe(64, 1_000_000, 10, None).unwrap(), 8);
    assert_eq!(infer_ivf_nprobe(1024, 1_000_000, 10, None).unwrap(), 64);
    assert_eq!(
        infer_ivf_nprobe(1024, 1_000_000, 10, Some(10_000)).unwrap(),
        1024
    );
    assert_eq!(infer_ivf_nprobe(1024, 1_000_000, 10, Some(0)).unwrap(), 1);
}

#[test]
fn calibrated_candidate_never_hides_an_unsatisfied_target() {
    let candidates = [
        RecallCandidate {
            value: 4,
            measured_recall: 0.90f32.to_bits(),
            bytes_per_vector: 48,
            build_seconds: 2.0f64.to_bits(),
        },
        RecallCandidate {
            value: 6,
            measured_recall: 0.96f32.to_bits(),
            bytes_per_vector: 72,
            build_seconds: 3.0f64.to_bits(),
        },
    ];
    let selected = select_calibrated_candidate(
        &candidates,
        TuningObjective {
            target_recall: Some(0.95f32.to_bits()),
            max_bytes_per_vector: Some(80),
            ..TuningObjective::default()
        },
    )
    .unwrap();
    assert_eq!(selected.value, 6);
    assert!(select_calibrated_candidate(
        &candidates,
        TuningObjective {
            target_recall: Some(0.99f32.to_bits()),
            ..TuningObjective::default()
        }
    )
    .is_none());
}

#[test]
fn rq_budget_accounts_for_padding_and_fixed_factors() {
    assert_eq!(infer_rq_bits(100, 88).unwrap(), 4);
    assert_eq!(infer_rq_bits(100, 72).unwrap(), 3);
    assert!(infer_rq_bits(100, 23).is_err());
}

#[test]
fn diskann_preset_chooses_layout_from_deployment_profile() {
    let local = diskann_build_preset(
        DiskAnnBuildPreset::Balanced,
        128,
        StorageProfile::LocalStorage,
        1 << 30,
        42,
    )
    .unwrap();
    assert_eq!(local.storage_layout, DiskAnnStorageLayout::Interleaved);
    let remote = diskann_build_preset(
        DiskAnnBuildPreset::Balanced,
        128,
        StorageProfile::RemoteStorage,
        1 << 30,
        42,
    )
    .unwrap();
    assert_eq!(remote.storage_layout, DiskAnnStorageLayout::Compact);
}

#[test]
fn balanced_preset_keeps_half_precision_vectors() {
    let build = diskann_build_preset(
        DiskAnnBuildPreset::Balanced,
        960,
        StorageProfile::RemoteStorage,
        8 * 1024 * 1024 * 1024,
        42,
    )
    .unwrap();
    assert_eq!(build.raw_vector_encoding, DiskAnnRawVectorEncoding::F16);
    assert_eq!(build.max_degree, 64);
    assert_eq!(build.build_search_list_size, 100);
    assert_eq!(f32::from_bits(build.alpha), 1.2);
    assert_eq!(build.seed, 42);
    assert_eq!(build.build_distance, DiskAnnBuildDistance::ProductQuantized);
}

#[test]
fn presets_differ_in_their_fixed_values() {
    let fast = diskann_build_preset(
        DiskAnnBuildPreset::FastBuild,
        8,
        StorageProfile::Memory,
        1,
        0,
    )
    .unwrap();
    assert_eq!((fast.max_degree, fast.build_search_list_size), (48, 64));
    assert_eq!(f32::from_bits(fast.alpha), 1.15);
    let high = diskann_build_preset(
        DiskAnnBuildPreset::HighRecall,
        8,
        StorageProfile::Memory,
        1,
        0,
    )
    .unwrap();
    assert_eq!((high.max_degree, high.build_search_list_size), (96, 200));
    assert_eq!(high.raw_vector_encoding, DiskAnnRawVectorEncoding::F32);
    assert_eq!(high.build_distance, DiskAnnBuildDistance::FullPrecision);
}

#[test]
fn a_record_longer_than_a_page_is_stored_compactly() {
    // 2 * 1920 + 64 * 4 is exactly one page.
    let layout = |dimension| {
        diskann_build_preset(
            DiskAnnBuildPreset::Balanced,
            dimension,
            StorageProfile::Memory,
            1,
            0,
        )
        .unwrap()
        .storage_layout
    };
    assert_eq!(layout(1920), DiskAnnStorageLayout::Interleaved);
    assert_eq!(layout(1921), DiskAnnStorageLayout::Compact);
}

#[test]
fn presets_refuse_what_cannot_be_built() {
    let build = |dimension, budget| {
        diskann_build_preset(
            DiskAnnBuildPreset::Balanced,
            dimension,
            StorageProfile::Auto,
            budget,
            0,
        )
    };
    assert_eq!(build(0, 1).unwrap_err(), IndexError::DimensionZero);
    assert_eq!(build(1, 0).unwrap_err(), IndexError::MemoryBudgetZero);
    assert_eq!(
        build(usize::MAX, 1).unwrap_err(),
        IndexError::RowBytesOverflow
    );
}

#[test]
fn the_nearest_power_of_two_is_chosen() {
    // The root of 2_250_000_000 is 47434, just below the middle between 32768 and 65536.
    assert_eq!(infer_ivf_nlist(2_250_000_000).unwrap(), 32_768);
    // (1.5 * 32768)^2 lies as near to both and goes to the lower one.
    assert_eq!(infer_ivf_nlist(49_152 * 49_152).unwrap(), 32_768);
    assert_eq!(infer_ivf_nlist(49_152 * 49_152 + 1).unwrap(), 65_536);
    assert_eq!(infer_ivf_nlist(usize::MAX).unwrap(), 1 << 32);
}

#[test]
fn few_vectors_get_few_lists() {
    assert_eq!(infer_ivf_nlist(127).unwrap(), 1);
    assert_eq!(infer_ivf_nlist(128).unwrap(), 2);
    assert_eq!(infer_ivf_nlist(1000).unwrap(), 8);
    assert_eq!(infer_ivf_nlist(0).unwrap_err(), IndexError::VectorCountZero);
}

#[test]
fn planning_refuses_zeros_and_overflows() {
    assert_eq!(
        default_training_vector_count(0, 1).unwrap_err(),
        IndexError::VectorCountZero
    );
    assert_eq!(
        default_training_vector_count(1, 0).unwrap_err(),
        IndexError::NlistZero
    );
    assert_eq!(
        default_training_vector_count(1, usize::MAX).unwrap_err(),
        IndexError::TrainingCountOverflow
    );
    assert_eq!(
        infer_ivf_nprobe(0, 1, 1, None).unwrap_err(),
        IndexError::NlistZero
    );
    assert_eq!(
        infer_ivf_nprobe(1, 0, 1, None).unwrap_err(),
        IndexError::VectorCountZero
    );
    assert_eq!(
        infer_ivf_nprobe(1, 1, 0, None).unwrap_err(),
        IndexError::TopKZero
    );
    assert_eq!(
        infer_ivf_nprobe(1, 1, usize::MAX, None).unwrap_err(),
        IndexError::CandidateCountOverflow
    );
    assert_eq!(
        infer_ivf_nprobe(1, 1, 1, None).map_err(|e| e.kind()),
        Ok(1)
    );
    assert_eq!(IndexError::TopKZero.kind(), ErrorKind::InvalidInput);
}

#[test]
fn probes_cover_the_candidates_that_are_wanted() {
    // Lists of ten rows on average, and 4 * 100 rows wanted.
    assert_eq!(infer_ivf_nprobe(100, 1000, 100, None).unwrap(), 40);
    assert_eq!(infer_ivf_nprobe(100, 1000, 100, Some(500)).unwrap(), 80);
    assert_eq!(infer_ivf_nprobe(100, 1000, 100, Some(333)).unwrap(), 100);
    assert_eq!(
        infer_ivf_nprobe(usize::MAX, usize::MAX, 1, Some(usize::MAX)).unwrap(),
        usize::MAX / 16 + 1
    );
}

#[test]
fn graph_searches_are_at_least_a_hundred_wide() {
    assert_eq!(infer_diskann_l_search(10).unwrap(), 100);
    assert_eq!(infer_diskann_l_search(51).unwrap(), 102);
    assert_eq!(infer_diskann_l_search(usize::MAX).unwrap(), usize::MAX);
    assert_eq!(
        infer_diskann_l_search(0).unwrap_err(),
        IndexError::TopKZero
    );
}

#[test]
fn one_bit_rows_need_fewer_factors() {
    // 128 / 8 + 8 bytes for one bit, 256 / 8 + 20 for two.
    assert_eq!(infer_rq_bits(100, 24).unwrap(), 1);
    assert_eq!(infer_rq_bits(100, 51).unwrap(), 1);
    assert_eq!(infer_rq_bits(100, 52).unwrap(), 2);
    assert_eq!(infer_rq_bits(100, 100_000).unwrap(), 8);
    assert_eq!(
        infer_rq_bits(100, 23).unwrap_err(),
        IndexError::RowBudget { max_bytes: 23 }
    );
    assert_eq!(
        infer_rq_bits(0, 23).unwrap_err(),
        IndexError::DimensionZero
    );
    assert_eq!(
        infer_rq_bits(usize::MAX, 23).unwrap_err(),
        IndexError::RowBytesOverflow
    );
    assert_eq!(
        infer_rq_bits(usize::MAX / 8, 23).unwrap_err(),
        IndexError::RowBytesOverflow
    );
}

#[test]
fn the_smallest_then_fastest_then_best_candidate_is_selected() {
    let candidate = |value: i32, bytes: usize, seconds: f64, recall: f32| RecallCandidate {
        value,
        measured_recall: recall.to_bits(),
        bytes_per_vector: bytes,
        build_seconds: seconds.to_bits(),
    };
    let any = TuningObjective::default();
    let candidates = [
        candidate(1, 64, 1.0, 0.9),
        candidate(2, 32, 5.0, 0.9),
        candidate(3, 32, 4.0, 0.8),
        candidate(4, 32, 4.0, 0.9),
        candidate(5, 32, 4.0, 0.9),
    ];
    assert_eq!(
        select_calibrated_candidate(&candidates, any).unwrap().value,
        4
    );
    let quick = TuningObjective {
        max_build_seconds: Some(1.5f64.to_bits()),
        ..any
    };
    assert_eq!(
        select_calibrated_candidate(&candidates, quick)
            .unwrap()
            .value,
        1
    );
    let never = TuningObjective {
        target_recall: Some(f32::NAN.to_bits()),
        ..any
    };
    assert!(select_calibrated_candidate(&candidates, never).is_none());
}

#[test]
fn auto_values_hold_what_was_given() {
    assert_eq!(AutoValue::Explicit(7).explicit(), Some(7));
    assert_eq!(AutoValue::<i32>::Auto.explicit(), None);
    assert_eq!(AutoValue::<i32>::default(), AutoValue::Auto);
}

#[test]
fn recommendations_follow_size_budget_and_storage() {
    let any = TuningObjective::default();
    let kind = |count, objective| recommend_index(count, 8, objective).unwrap().index_type;
    assert_eq!(kind(100_000, any), IndexType::IvfFlat);
    assert_eq!(kind(100_001, any), IndexType::IvfSq);
    assert_eq!(
        kind(
            100_001,
            TuningObjective {
                max_bytes_per_vector: Some(32),
                ..any
            }
        ),
        IndexType::IvfPq
    );
    assert_eq!(
        kind(
            100_001,
            TuningObjective {
                max_bytes_per_vector: Some(33),
                storage_profile: StorageProfile::ObjectStore,
                ..any
            }
        ),
        IndexType::IvfRq
    );
    assert_eq!(
        kind(
            100_001,
            TuningObjective {
                target_recall: Some(0.95f32.to_bits()),
                ..any
            }
        ),
        IndexType::DiskAnn
    );
    let small = recommend_index(1, 1, any).unwrap();
    assert_eq!(
        small.reason,
        "small corpus favors exact values and simple construction"
    );
    assert!(recommend_index(0, 1, any).is_err());
    assert!(recommend_index(1, 0, any).is_err());
}

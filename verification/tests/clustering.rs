use paimon_vindex_core::autotune::DiskAnnBuildParams;
use paimon_vindex_core::cluster_split::{initial_clusters, ClusterSplitter, SplitStep};
use paimon_vindex_core::coarse::{rows_per_task, use_approximate_assignment, CoarseAssignment};
use paimon_vindex_core::cluster_assign::assign_clusters_fast;
use paimon_vindex_core::cluster_update::update_centroids;
use paimon_vindex_core::coreset::{weighted_kmeans_train, StreamingKMeans};
use paimon_vindex_core::distance::MetricType;
use paimon_vindex_core::hierarchical::{kmeans_train, kmeans_train_hierarchical};
use paimon_vindex_core::hnsw::HnswBuildParams;
use paimon_vindex_core::ivfflat::IVFFlatIndex;
use paimon_vindex_core::ivfhnswflat::IVFHNSWFlatIndex;
use paimon_vindex_core::ivfhnswsq::IVFHNSWSQIndex;
use paimon_vindex_core::ivfrq::IVFRQIndex;
use paimon_vindex_core::kmeans::{
    count_members, draw_row, find_nearest, find_topk, find_topk_batch, plan_refills, repeat_rows,
    rows_at_once, subsample, training_data, training_rows, trains_hierarchically, KMeansConfig,
    Refill,
};
use paimon_vindex_core::random::{draw_picks, sample_of};
use paimon_vindex_core::seeding::kmeans_plusplus_init;
use paimon_vindex_core::sq::ScalarQuantizer;
use paimon_vindex_core::training::kmeans_train_with_init;
use paimon_vindex_core::vector_math::{Kernels, VectorMath};
use rand::rngs::StdRng;
use rand::{Rng, SeedableRng};

fn bits(values: &[f32]) -> Vec<u32> {
    values.iter().map(|value| value.to_bits()).collect()
}

fn squared(a: &[f32], b: &[f32]) -> f32 {
    a.iter().zip(b).map(|(x, y)| (x - y) * (x - y)).sum()
}

fn floats(patterns: &[u32]) -> Vec<f32> {
    patterns.iter().map(|&bits| f32::from_bits(bits)).collect()
}

/// The arithmetic of single precision.
fn math() -> impl VectorMath {
    Kernels {
        distances: |rows: &Vec<u32>,
                    count: usize,
                    d: usize,
                    centroids: &Vec<u32>,
                    k: usize,
                    sizes: &Vec<usize>| {
            let (rows, centroids) = (floats(rows), floats(centroids));
            (0..count)
                .map(|i| {
                    (0..k)
                        .map(|c| {
                            let gap = squared(&rows[i * d..(i + 1) * d], &centroids[c * d..(c + 1) * d]);
                            let penalty = if sizes[c] > 0 { (sizes[c] as f32).ln() } else { 0.0 };
                            (gap + penalty).to_bits()
                        })
                        .collect()
                })
                .collect()
        },
        gap: |a: &Vec<u32>, b: &Vec<u32>| squared(&floats(a), &floats(b)).to_bits(),
        sum: |a: u32, b: u32| (f32::from_bits(a) + f32::from_bits(b)).to_bits(),
        mean: |rows: &Vec<u32>, count: usize, d: usize| {
            let rows = floats(rows);
            (0..d)
                .map(|j| {
                    let sum: f32 = (0..count).map(|i| rows[i * d + j]).sum();
                    (sum * (1.0 / count as f32)).to_bits()
                })
                .collect()
        },
        weighted_mean: |rows: &Vec<u32>, weights: &Vec<usize>, d: usize| {
            let rows = floats(rows);
            let total: f32 = weights.iter().map(|&w| w as f32).sum();
            (0..d)
                .map(|j| {
                    let sum: f32 = (0..weights.len())
                        .map(|i| weights[i] as f32 * rows[i * d + j])
                        .sum();
                    (sum / total).to_bits()
                })
                .collect()
        },
        nudged: |vector: &Vec<u32>, away: bool| {
            let eps = 1.0 / 1024.0f32;
            floats(vector)
                .iter()
                .enumerate()
                .map(|(j, value)| {
                    let up = (j % 2 == 0) == away;
                    (value * if up { 1.0 + eps } else { 1.0 - eps }).to_bits()
                })
                .collect()
        },
        settled: |before: u32, now: u32| {
            let (before, now) = (f32::from_bits(before), f32::from_bits(now));
            (before - now).abs() / before.max(1e-10) < 1e-6
        },
        target: |word: u32, total: u32| {
            let part = (word >> 8) as f32 * (1.0 / 16_777_216.0);
            (part * f32::from_bits(total)).to_bits()
        },
    }
}

#[test]
fn approximate_assignment_depends_on_centroid_values() {
    assert!(!use_approximate_assignment(768, 1024));
    assert!(use_approximate_assignment(768, 4096));
    assert!(use_approximate_assignment(usize::MAX, 2));
}

#[test]
fn test_find_topk() {
    let centroids = [0.0f32, 0.0, 10.0, 0.0, 5.0, 5.0];
    let query = [1.0f32, 1.0];
    let dists: Vec<u32> = centroids
        .chunks_exact(2)
        .map(|centroid| squared(&query, centroid).to_bits())
        .collect();
    let (indices, distances) = find_topk(&dists, 2);
    assert_eq!(indices[0], 0);
    assert_eq!(indices, vec![0, 2]);
    assert_eq!(distances, bits(&[2.0, 32.0]));
}

#[test]
fn several_queries_are_ranked_each_by_itself() {
    let rows = vec![bits(&[3.0, 2.0, 1.0]), bits(&[-0.0, 0.0, -1.0])];
    let (indices, distances) = find_topk_batch(&rows, 2);
    assert_eq!(indices, vec![vec![2, 1], vec![2, 0]]);
    assert_eq!(distances, vec![bits(&[1.0, 2.0]), bits(&[-1.0, -0.0])]);
    let (all, _) = find_topk(&bits(&[1.0, 1.0]), 9);
    assert_eq!(all, vec![0, 1]);
}

#[test]
fn the_first_of_the_nearest_is_found() {
    assert_eq!(find_nearest(&bits(&[3.0, 1.0, 1.0])), 1);
    assert_eq!(find_nearest(&bits(&[f32::NAN, 5.0])), 1);
    assert_eq!(find_nearest(&bits(&[f32::MAX, f32::INFINITY])), 0);
    assert_eq!(find_nearest(&[]), 0);
}

#[test]
fn training_takes_as_many_rows_as_are_allowed() {
    assert_eq!(training_rows(100, 4, 256), 100);
    assert_eq!(training_rows(2000, 4, 256), 1024);
    assert_eq!(training_rows(100, usize::MAX, 256), 100);
    assert!(trains_hierarchically(1000, 257));
    assert!(!trains_hierarchically(1000, 256));
    assert!(!trains_hierarchically(257, 257));
}

#[test]
fn picks_lead_to_their_sample() {
    assert_eq!(sample_of(5, &vec![3, 3, 4]), vec![3, 0, 4]);
    assert_eq!(sample_of(5, &vec![0, 1, 2]), vec![0, 1, 2]);
}

#[test]
fn a_subsample_holds_rows_of_the_data_and_none_twice() {
    let mut rng = StdRng::seed_from_u64(7);
    let data: Vec<u32> = (0..40).collect();
    let sample = subsample(&data, 20, 2, 12, &mut rng);
    assert_eq!(sample.len(), 24);
    let mut rows: Vec<u32> = Vec::new();
    for row in sample.chunks_exact(2) {
        assert_eq!(row[0] + 1, row[1]);
        assert_eq!(row[0] % 2, 0);
        rows.push(row[0]);
    }
    rows.sort();
    rows.dedup();
    assert_eq!(rows.len(), 12);
}

#[test]
fn draws_differ_from_place_to_place() {
    let mut rng = StdRng::seed_from_u64(11);
    let picks = draw_picks(1000, 1000, &mut rng);
    assert_eq!(picks.len(), 1000);
    assert!(picks
        .iter()
        .enumerate()
        .all(|(i, &pick)| i <= pick && pick < 1000));
    assert!(picks.iter().enumerate().any(|(i, &pick)| pick != i));
    let mut seen: Vec<usize> = (0..50).map(|_| draw_row(1000, &mut rng)).collect();
    assert!(seen.iter().all(|&row| row < 1000));
    seen.dedup();
    assert!(seen.len() > 1);
}

#[test]
fn training_data_depends_on_the_seed() {
    let data: Vec<u32> = (0..1000).collect();
    let config = |seed| KMeansConfig {
        max_points_per_centroid: 10,
        seed,
        ..KMeansConfig::default()
    };
    let first = training_data(&data, 1000, 1, 4, &config(1));
    assert_eq!(first.len(), 40);
    assert_eq!(first, training_data(&data, 1000, 1, 4, &config(1)));
    assert_ne!(first, training_data(&data, 1000, 1, 4, &config(2)));
    assert_eq!(training_data(&data, 1000, 1, 100, &config(1)), data);
}

#[test]
fn equal_seeds_give_equal_centroids() {
    let mut rng = StdRng::seed_from_u64(9);
    let data: Vec<f32> = (0..600 * 2).map(|_| rng.gen::<f32>()).collect();
    let data = bits(&data);
    let config = |seed| KMeansConfig {
        seed,
        ..KMeansConfig::default()
    };
    for k in [8, 300] {
        let first = kmeans_train(&config(3), &data, 600, 2, k, 100_000, &math());
        assert_eq!(first.as_ref().map(Vec::len), Some(k * 2));
        assert_eq!(
            first,
            kmeans_train(&config(3), &data, 600, 2, k, 100_000, &math())
        );
        assert_ne!(
            first,
            kmeans_train(&config(4), &data, 600, 2, k, 100_000, &math())
        );
    }
}

#[test]
fn rows_are_repeated_until_there_are_enough() {
    let data = vec![1u32, 2, 3, 4];
    assert_eq!(
        repeat_rows(&data, 2, 2, 5),
        vec![1, 2, 3, 4, 1, 2, 3, 4, 1, 2]
    );
}

#[test]
fn comparisons_are_made_in_chunks() {
    assert_eq!(rows_at_once(100, 100), 100);
    assert_eq!(rows_at_once(10_000, 1000), 4194);
    assert_eq!(rows_at_once(usize::MAX, 4), 1_048_576);
}

#[test]
fn members_are_counted() {
    assert_eq!(count_members(&vec![2, 0, 2, 2], 4), vec![1, 0, 3, 0]);
}

#[test]
fn empty_clusters_take_from_the_last_of_the_largest() {
    assert_eq!(
        plan_refills(vec![0, 6, 6, 0]),
        vec![
            Refill::Donor {
                cluster: 0,
                donor: 2
            },
            Refill::Donor {
                cluster: 3,
                donor: 1
            },
        ]
    );
    assert_eq!(
        plan_refills(vec![1, 0, 1]),
        vec![Refill::Row { cluster: 1 }]
    );
    assert_eq!(
        plan_refills(vec![3, 0, 0, 0]),
        vec![
            Refill::Donor {
                cluster: 1,
                donor: 0
            },
            Refill::Donor {
                cluster: 2,
                donor: 0
            },
            Refill::Row { cluster: 3 },
        ]
    );
    assert_eq!(plan_refills(vec![1, 2]), vec![]);
}

fn halves(data: &[f32], indices: &[usize]) -> (Vec<u32>, Vec<usize>) {
    let mean = indices.iter().map(|&i| data[i]).sum::<f32>() / indices.len() as f32;
    let sides: Vec<usize> = indices
        .iter()
        .map(|&i| if data[i] < mean { 0 } else { 1 })
        .collect();
    let centroid = |side: usize| {
        let members: Vec<f32> = indices
            .iter()
            .zip(&sides)
            .filter(|(_, &s)| s == side)
            .map(|(&i, _)| data[i])
            .collect();
        if members.is_empty() {
            0.0
        } else {
            members.iter().sum::<f32>() / members.len() as f32
        }
    };
    (bits(&[centroid(0), centroid(1)]), sides)
}

#[test]
fn splitting_goes_on_until_there_are_enough_clusters() {
    let data: Vec<f32> = (0..64).map(|i| i as f32).collect();
    let assignments: Vec<usize> = (0..64).map(|i| i / 32).collect();
    let centroids = bits(&[15.5, 47.5]);
    let mut splitter = ClusterSplitter::new(&centroids, &assignments, 2, 1, 8, 5);
    let mut splits = 0;
    loop {
        match splitter.next() {
            SplitStep::Done => break,
            SplitStep::Split { indices, seed } => {
                assert_eq!(seed, 5);
                assert!(indices.len() >= 4);
                let (sub_centroids, sides) = halves(&data, &indices);
                splitter.split(&sub_centroids, &sides);
                splits += 1;
            }
        }
    }
    assert_eq!(splits, 6);
    let mut found: Vec<f32> = splitter
        .finish()
        .iter()
        .map(|&value| f32::from_bits(value))
        .collect();
    found.sort_by(f32::total_cmp);
    assert_eq!(found, vec![3.5, 11.5, 19.5, 27.5, 35.5, 43.5, 51.5, 59.5]);
}

#[test]
fn clusters_that_are_too_small_are_final() {
    let assignments = vec![0, 0, 0, 1, 1];
    let centroids = bits(&[1.0, 2.0]);
    let mut splitter = ClusterSplitter::new(&centroids, &assignments, 2, 1, 4, 0);
    assert!(matches!(splitter.next(), SplitStep::Done));
    assert_eq!(splitter.finish(), bits(&[1.0, 2.0, 0.0, 0.0]));
}

#[test]
fn an_empty_side_is_dropped() {
    let assignments = vec![0, 0, 0, 0];
    let mut splitter = ClusterSplitter::new(&bits(&[9.0]), &assignments, 1, 1, 2, 3);
    match splitter.next() {
        SplitStep::Split { indices, seed } => {
            assert_eq!(indices, vec![0, 1, 2, 3]);
            assert_eq!(seed, 3);
        }
        SplitStep::Done => panic!("four rows can be split"),
    }
    splitter.split(&bits(&[5.0, 6.0]), &vec![1, 1, 1, 1]);
    assert_eq!(splitter.finish(), bits(&[6.0, 0.0]));
    assert_eq!(initial_clusters(300), 16);
    assert_eq!(initial_clusters(7), 7);
}

#[test]
fn the_largest_cluster_is_collected_first() {
    let assignments = vec![1, 2, 2, 0, 2, 1];
    let splitter = ClusterSplitter::new(&bits(&[1.0, 2.0, 3.0]), &assignments, 3, 1, 3, 0);
    assert_eq!(splitter.finish(), bits(&[3.0, 2.0, 1.0]));
}

#[test]
fn chunks_add_up_to_a_weighted_coreset() {
    let math = math();
    let mut streaming = StreamingKMeans::new(1, 2, 10, KMeansConfig::default());
    assert_eq!(streaming.total_weight(), 0);
    streaming.add_chunk(&vec![], 0, &math);
    assert_eq!(streaming.total_weight(), 0);
    assert_eq!(streaming.finalize(&math), vec![0, 0]);
    streaming.add_chunk(&bits(&[1.0]), 1, &math);
    assert_eq!(streaming.coreset_weights, vec![1]);
    assert_eq!(streaming.finalize(&math), bits(&[1.0, 0.0]));
    streaming.add_chunk(&bits(&[10.0, 10.0, 20.0]), 3, &math);
    assert_eq!(streaming.coreset_weights.len(), 3);
    assert_eq!(streaming.total_weight(), 4);
    let mut centroids = floats(&streaming.finalize(&math));
    centroids.sort_by(f32::total_cmp);
    assert_eq!(centroids.len(), 2);
    assert!(centroids[0] < 10.0 || centroids[1] == 20.0);
}

#[test]
fn test_two_clusters() {
    let mut data = Vec::new();
    for _ in 0..50 {
        data.push(0.1);
        data.push(0.1);
    }
    for _ in 0..50 {
        data.push(10.1);
        data.push(10.1);
    }

    let config = KMeansConfig::default();
    let centroids = floats(&kmeans_train(&config, &bits(&data), 100, 2, 2, 0, &math()).unwrap());

    let c0 = if centroids[0] < 5.0 {
        &centroids[0..2]
    } else {
        &centroids[2..4]
    };
    let c1 = if centroids[0] < 5.0 {
        &centroids[2..4]
    } else {
        &centroids[0..2]
    };

    assert!(c0[0] < 2.0 && c0[1] < 2.0);
    assert!(c1[0] > 8.0 && c1[1] > 8.0);
}

#[test]
fn test_hot_start_converges_faster() {
    let mut rng = StdRng::seed_from_u64(42);
    let n = 500;
    let d = 4;
    let k = 4;

    let data: Vec<f32> = (0..n * d).map(|_| rng.gen::<f32>() * 10.0).collect();
    let data = bits(&data);

    let config = KMeansConfig {
        niter: 25,
        ..KMeansConfig::default()
    };
    let centroids = kmeans_train(&config, &data, n, d, k, 0, &math()).unwrap();

    let config2 = KMeansConfig {
        niter: 3,
        ..KMeansConfig::default()
    };
    let centroids2 = kmeans_train_with_init(&config2, &data, n, d, k, Some(&centroids), &math());

    let (centroids, centroids2) = (floats(&centroids), floats(&centroids2));
    let mut total_diff = 0.0f32;
    for i in 0..k * d {
        total_diff += (centroids[i] - centroids2[i]).abs();
    }
    assert!(
        total_diff < 1.0,
        "Hot-start centroids drifted too much: {}",
        total_diff
    );
}

#[test]
fn test_streaming_coreset_kmeans() {
    let n = 5000;
    let d = 4;
    let k = 10;
    let chunk_size = 1000;

    let mut rng = StdRng::seed_from_u64(42);
    let mut data = Vec::new();
    for cluster in 0..k {
        let cx = cluster as f32 * 20.0;
        let cy = cluster as f32 * 20.0;
        for _ in 0..n / k {
            data.push(cx + rng.gen::<f32>() * 2.0);
            data.push(cy + rng.gen::<f32>() * 2.0);
            data.push(rng.gen::<f32>());
            data.push(rng.gen::<f32>());
        }
    }

    let config = KMeansConfig::default();
    let mut streaming = StreamingKMeans::new(d, k, chunk_size, config);

    for chunk_start in (0..n).step_by(chunk_size) {
        let chunk_end = (chunk_start + chunk_size).min(n);
        let chunk_n = chunk_end - chunk_start;
        streaming.add_chunk(&bits(&data[chunk_start * d..chunk_end * d]), chunk_n, &math());
    }

    assert!((streaming.total_weight() as f32 - n as f32).abs() < 1.0);

    let centroids = floats(&streaming.finalize(&math()));
    assert_eq!(centroids.len(), k * d);

    let first = &centroids[0..d];
    let mut diverse = false;
    for i in 1..k {
        if squared(&centroids[i * d..(i + 1) * d], first) > 1.0 {
            diverse = true;
            break;
        }
    }
    assert!(diverse, "Streaming centroids are not diverse");
}

#[test]
fn test_hierarchical_kmeans() {
    let n = 2000;
    let d = 4;
    let k = 300;

    let mut rng = StdRng::seed_from_u64(42);
    let data: Vec<f32> = (0..n * d).map(|_| rng.gen::<f32>() * 100.0).collect();

    let config = KMeansConfig::default();
    let centroids = kmeans_train(&config, &bits(&data), n, d, k, 100_000, &math()).unwrap();
    let centroids = floats(&centroids);

    assert_eq!(centroids.len(), k * d);

    for &v in &centroids {
        assert!(v.is_finite(), "Non-finite centroid value: {}", v);
    }

    let first = &centroids[0..d];
    let mut all_same = true;
    for i in 1..k {
        if &centroids[i * d..(i + 1) * d] != first {
            all_same = false;
            break;
        }
    }
    assert!(!all_same, "All centroids are identical");
}

#[test]
fn rows_that_cannot_be_told_apart_are_not_split_for_ever() {
    let data = bits(&vec![1.0; 600]);
    let config = KMeansConfig::default();
    assert_eq!(
        kmeans_train_hierarchical(&config, &data, 600, 1, 300, 50, &math()),
        None
    );
}

#[test]
fn rows_go_to_the_nearest_centroid() {
    let data = bits(&[0.0, 9.0, 1.0, 12.0]);
    let centroids = bits(&[10.0, 0.0]);
    let before = vec![0; 4];
    let (chosen, objective) =
        assign_clusters_fast(&data, 4, 1, &centroids, 2, &before, false, &math());
    assert_eq!(chosen, vec![1, 0, 1, 0]);
    assert_eq!(f32::from_bits(objective), 0.0 + 1.0 + 1.0 + 4.0);
    let (balanced, _) = assign_clusters_fast(&data, 4, 1, &centroids, 2, &before, true, &math());
    assert_eq!(balanced, vec![1, 0, 1, 0]);
}

#[test]
fn rows_are_assigned_piece_by_piece() {
    let k = 1 << 20;
    let centroids: Vec<u32> = (0..k).map(|c| (c as f32).to_bits()).collect();
    let data = bits(&[3.0, 2.0, 1.0, 0.0, 70.0]);
    let (chosen, objective) =
        assign_clusters_fast(&data, 5, 1, &centroids, k, &vec![0; 5], false, &math());
    assert_eq!(chosen, vec![3, 2, 1, 0, 70]);
    assert_eq!(f32::from_bits(objective), 0.0);
}

#[test]
fn centroids_move_to_the_middle_and_empty_clusters_are_refilled() {
    let data = bits(&[1.0, 3.0, 5.0]);
    let mut centroids = bits(&[0.0, 7.0]);
    let mut rng = StdRng::seed_from_u64(1);
    update_centroids(
        &data,
        3,
        1,
        &mut centroids,
        2,
        &vec![0, 0, 0],
        false,
        &mut rng,
        &math(),
    );
    let eps = 1.0 / 1024.0;
    assert_eq!(floats(&centroids), vec![3.0 * (1.0 - eps), 3.0 * (1.0 + eps)]);
}

#[test]
fn seeds_are_rows_and_far_from_each_other() {
    let data = bits(&[0.0, 0.0, 0.0, 50.0]);
    for seed in 0..20 {
        let mut rng = StdRng::seed_from_u64(seed);
        let mut seeds = floats(&kmeans_plusplus_init(&data, 4, 1, 2, &mut rng, &math()));
        seeds.sort_by(f32::total_cmp);
        assert_eq!(seeds, vec![0.0, 50.0]);
    }
}

#[test]
fn weights_pull_the_centroid() {
    let data = bits(&[0.0, 4.0, 100.0]);
    let config = KMeansConfig::default();
    let found = weighted_kmeans_train(&config, &data, &vec![3, 1, 1], 3, 1, 2, &math());
    let mut centroids = floats(&found);
    centroids.sort_by(f32::total_cmp);
    assert_eq!(centroids, vec![1.0, 100.0]);
}

#[test]
fn values_behind_the_last_row_do_not_count() {
    let config = KMeansConfig::default();
    let rows = bits(&[0.0, 1.0, 2.0, 100.0, 101.0, 102.0]);
    let mut longer = rows.clone();
    longer.extend(bits(&[-7.0, 5000.0]));
    let train = |data: &Vec<u32>| kmeans_train(&config, data, 6, 1, 2, 0, &math());
    let mut centroids = floats(&train(&rows).unwrap());
    centroids.sort_by(f32::total_cmp);
    assert_eq!(centroids, vec![1.0, 101.0]);
    assert_eq!(train(&longer), train(&rows));
    let begin = bits(&[0.0, 102.0]);
    assert_eq!(
        kmeans_train_with_init(&config, &longer, 6, 1, 2, Some(&begin), &math()),
        kmeans_train_with_init(&config, &rows, 6, 1, 2, Some(&begin), &math()),
    );
}

#[test]
fn nothing_is_trained_on_nothing() {
    let config = KMeansConfig::default();
    assert_eq!(
        kmeans_train_with_init(&config, &vec![], 0, 2, 3, None, &math()),
        vec![0; 6]
    );
    assert_eq!(
        kmeans_train_with_init(&config, &bits(&[1.0, 2.0]), 2, 1, 3, None, &math()),
        bits(&[1.0, 2.0, 1.0])
    );
}

#[test]
fn a_graph_of_the_centroids_is_built_once() {
    let mut coarse: CoarseAssignment<DiskAnnBuildParams> = CoarseAssignment::default();
    let build = |_: &Vec<u32>, params: DiskAnnBuildParams| Some(params);
    let none = Vec::new();
    coarse.prepare(&none, 1024, 768, &build);
    assert_eq!((coarse.graph, coarse.build_attempted), (None, true));
    coarse.prepare(&none, 4096, 768, &build);
    assert_eq!(coarse.graph, None);
    coarse.reset();
    coarse.prepare(&none, 4096, 768, &build);
    let params = coarse.graph.unwrap();
    assert_eq!(params.max_degree, 12);
    assert_eq!(params.build_search_list_size, 15);
    assert_eq!(f32::from_bits(params.alpha), 1.2);
    assert_eq!(params.memory_budget_bytes, 1024 * 1024 * 1024);
    coarse.prepare(&none, 4096, 768, &|_: &Vec<u32>, _: DiskAnnBuildParams| unreachable!());
    coarse.reset();
    assert_eq!((coarse.graph, coarse.build_attempted), (None, false));
}

#[test]
fn rows_go_to_lists_by_search_or_by_distance() {
    let near = |row: usize| bits(&[[3.0, 1.0], [0.5, 2.0], [4.0, 4.0]][row]);
    let find = |graph: &usize, row: usize| if row == 1 { None } else { Some(graph + row) };
    let mut searched = CoarseAssignment::default();
    let centroids = vec![7];
    let build = |centroids: &Vec<u32>, _: DiskAnnBuildParams| Some(centroids[0] as usize);
    assert_eq!(
        searched.assign(3, &centroids, 4096, 768, &build, &find, &near),
        vec![7, 0, 9]
    );
    let mut compared = CoarseAssignment::default();
    assert_eq!(
        compared.assign(3, &centroids, 2, 768, &build, &find, &near),
        vec![1, 0, 0]
    );
    let mut failed = CoarseAssignment::default();
    let fail = |_: &Vec<u32>, _: DiskAnnBuildParams| None;
    assert_eq!(
        failed.assign(3, &centroids, 4096, 768, &fail, &find, &near),
        vec![1, 0, 0]
    );
}

#[test]
fn tasks_are_neither_tiny_nor_huge() {
    assert_eq!(rows_per_task(100, 8), 16);
    assert_eq!(rows_per_task(3200, 8), 100);
    assert_eq!(rows_per_task(1_000_000, 8), 1024);
    assert_eq!(rows_per_task(40, 0), 40);
}

#[test]
fn every_index_trains_the_centroids_of_its_lists() {
    let data: Vec<u32> = bits(
        &(0..64)
            .flat_map(|i| [(i % 2) as f32 * 100.0 + (i / 2) as f32 * 0.01, 1.0])
            .collect::<Vec<f32>>(),
    );
    let halved = |vectors: &Vec<u32>| {
        bits(&floats(vectors).iter().map(|value| value * 0.5).collect::<Vec<f32>>())
    };
    let sq = ScalarQuantizer::with_dimension_bounds(2, bits(&[0.0, 0.0]), bits(&[1.0, 1.0]));
    let params = HnswBuildParams::default();
    let mut flat = IVFFlatIndex::new(2, 2, MetricType::L2);
    let mut graphs = IVFHNSWFlatIndex::new(2, 2, MetricType::L2, params);
    let mut codes = IVFHNSWSQIndex::new(2, 2, MetricType::L2, params, sq);
    let mut signs = IVFRQIndex::with_options(2, 2, MetricType::L2, 7, 4);
    assert!(flat.train(&data, 64, 0, &halved, &math()));
    assert!(graphs.train(&data, 64, 0, &halved, &math()));
    let one = |least: u32, greatest: u32| {
        ScalarQuantizer::with_dimension_bounds(2, vec![least; 2], vec![greatest; 2])
    };
    let bounds = |rows: &Vec<u32>, n: usize| {
        (one(rows[0], n as u32), vec![one(rows[2], 1), one(rows[2], 2)])
    };
    assert!(codes.train(&data, 64, 0, &halved, &bounds, &math()));
    assert_eq!(codes.sq.mins, bits(&[0.0, 0.0]));
    assert_eq!(codes.sq.maxs, vec![64, 64]);
    assert_eq!(codes.list_sqs.len(), 2);
    assert_eq!(codes.list_sqs[1].mins, bits(&[50.0, 50.0]));
    assert_eq!(codes.list_sqs[1].maxs, vec![2, 2]);
    let mut assignment = CoarseAssignment { graph: Some(7usize), build_attempted: true };
    let build = |_: &Vec<u32>, _: DiskAnnBuildParams| Some(9usize);
    assert!(signs.train(&data, 64, 0, &halved, &mut assignment, &build, &math()));
    assert_eq!((assignment.graph, assignment.build_attempted), (None, true));
    for centroids in [
        &flat.quantizer_centroids,
        &graphs.flat.quantizer_centroids,
        &codes.quantizer_centroids,
        &signs.quantizer_centroids,
    ] {
        let mut found = floats(centroids);
        assert_eq!(found.len(), 4);
        if found[0] > found[2] {
            found.rotate_left(2);
        }
        assert!((found[0] - 0.0775).abs() < 0.01, "{found:?}");
        assert!((found[2] - 50.0775).abs() < 0.01, "{found:?}");
        assert_eq!((found[1], found[3]), (0.5, 0.5));
    }
}

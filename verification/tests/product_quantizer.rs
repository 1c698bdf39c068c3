use paimon_vindex_core::error::IndexError;
use paimon_vindex_core::kmeans::KMeansConfig;
use paimon_vindex_core::pq::ProductQuantizer;
use paimon_vindex_core::pq_scan::{full_precision_rows, sum_codes};
use paimon_vindex_core::vector_math::{Kernels, VectorMath};
use rand::rngs::StdRng;
use rand::{Rng, SeedableRng};

fn bits(values: &[f32]) -> Vec<u32> {
    values.iter().map(|value| value.to_bits()).collect()
}

fn squared(a: &[f32], b: &[f32]) -> f32 {
    a.iter().zip(b).map(|(x, y)| (x - y) * (x - y)).sum()
}

/// The distances of a chunk to its centroids.
fn distances(chunk: &Vec<u32>, centroids: &Vec<u32>, count: usize) -> Vec<u32> {
    let (chunk, centroids) = (floats(chunk), floats(centroids));
    let d = chunk.len();
    (0..count)
        .map(|c| squared(&chunk, &centroids[c * d..(c + 1) * d]).to_bits())
        .collect()
}

fn floats(patterns: &[u32]) -> Vec<f32> {
    patterns.iter().map(|&bits| f32::from_bits(bits)).collect()
}

/// The arithmetic of single precision.
fn math() -> impl VectorMath {
    Kernels {
        distances: |rows: &Vec<u32>,
                    count: usize,
                    d: usize,
                    centroids: &Vec<u32>,
                    k: usize,
                    sizes: &Vec<usize>| {
            let (rows, centroids) = (floats(rows), floats(centroids));
            (0..count)
                .map(|i| {
                    (0..k)
                        .map(|c| {
                            let gap = squared(&rows[i * d..(i + 1) * d], &centroids[c * d..(c + 1) * d]);
                            let penalty = if sizes[c] > 0 { (sizes[c] as f32).ln() } else { 0.0 };
                            (gap + penalty).to_bits()
                        })
                        .collect()
                })
                .collect()
        },
        gap: |a: &Vec<u32>, b: &Vec<u32>| squared(&floats(a), &floats(b)).to_bits(),
        sum: |a: u32, b: u32| (f32::from_bits(a) + f32::from_bits(b)).to_bits(),
        mean: |rows: &Vec<u32>, count: usize, d: usize| {
            let rows = floats(rows);
            (0..d)
                .map(|j| {
                    let sum: f32 = (0..count).map(|i| rows[i * d + j]).sum();
                    (sum * (1.0 / count as f32)).to_bits()
                })
                .collect()
        },
        weighted_mean: |rows: &Vec<u32>, weights: &Vec<usize>, d: usize| {
            let rows = floats(rows);
            let total: f32 = weights.iter().map(|&w| w as f32).sum();
            (0..d)
                .map(|j| {
                    let sum: f32 = (0..weights.len())
                        .map(|i| weights[i] as f32 * rows[i * d + j])
                        .sum();
                    (sum / total).to_bits()
                })
                .collect()
        },
        nudged: |vector: &Vec<u32>, away: bool| {
            let eps = 1.0 / 1024.0f32;
            floats(vector)
                .iter()
                .enumerate()
                .map(|(j, value)| {
                    let up = (j % 2 == 0) == away;
                    (value * if up { 1.0 + eps } else { 1.0 - eps }).to_bits()
                })
                .collect()
        },
        settled: |before: u32, now: u32| {
            let (before, now) = (f32::from_bits(before), f32::from_bits(now));
            (before - now).abs() / before.max(1e-10) < 1e-6
        },
        target: |word: u32, total: u32| {
            let part = (word >> 8) as f32 * (1.0 / 16_777_216.0);
            (part * f32::from_bits(total)).to_bits()
        },
    }
}

#[test]
fn test_encode_decode_roundtrip() {
    let d = 8;
    let m = 2;
    let n = 100;
    let mut rng = StdRng::seed_from_u64(42);

    let data: Vec<f32> = (0..n * d).map(|_| rng.gen::<f32>()).collect();

    let mut pq = ProductQuantizer::new(d, m);
    pq.train(&bits(&data), n, &math());

    let original = &data[0..d];
    let codes = pq.encode(&bits(original), &distances);
    assert_eq!(codes.len(), m);

    let decoded = floats(&pq.decode(&codes));

    let error = squared(original, &decoded);
    assert!(error < 10.0);
}

#[test]
fn training_from_scratch_ignores_what_was_there() {
    let data: Vec<f32> = (0..64).map(|i| (i * 7 % 13) as f32).collect();
    let mut fresh = ProductQuantizer::new(4, 2);
    assert!(!fresh.has_valid_layout());
    fresh.train(&bits(&data), 16, &math());
    assert!(fresh.has_valid_layout());
    let mut again = ProductQuantizer::new(4, 2);
    again.centroids = vec![1, 2, 3];
    again.train(&bits(&data), 16, &math());
    assert_eq!(again.centroids, fresh.centroids);
}

#[test]
fn test_distance_table() {
    let d = 8;
    let m = 2;
    let n = 100;
    let mut rng = StdRng::seed_from_u64(42);

    let data: Vec<f32> = (0..n * d).map(|_| rng.gen::<f32>()).collect();

    let mut pq = ProductQuantizer::new(d, m);
    pq.train(&bits(&data), n, &math());

    let query = &data[0..d];
    let codes = pq.encode(&bits(query), &distances);

    let table = pq.compute_distance_table(&bits(query), &distances);
    assert_eq!(table.len(), m * pq.ksub);
    let dist = f32::from_bits(pq.distance_from_table(&table, &codes, &math()));
    assert!(dist >= 0.0);
}

#[test]
fn test_4bit_encode_decode() {
    let d = 8;
    let m = 4;
    let n = 200;
    let mut rng = StdRng::seed_from_u64(42);

    let data: Vec<f32> = (0..n * d).map(|_| rng.gen::<f32>()).collect();

    let mut pq = ProductQuantizer::with_nbits(d, m, 4);
    assert_eq!(pq.ksub, 16);
    assert_eq!(pq.code_size(), 2);

    pq.train(&bits(&data), n, &math());

    let original = &data[0..d];
    let codes = pq.encode(&bits(original), &distances);

    assert!(codes.iter().any(|&b| b != 0));

    let decoded = floats(&pq.decode(&codes));

    let error = squared(original, &decoded);
    assert!(error < 20.0);

    let table = pq.compute_distance_table(&bits(original), &distances);
    assert_eq!(table.len(), m * pq.ksub);
    let dist = f32::from_bits(pq.distance_from_table(&table, &codes, &math()));
    assert!(dist >= 0.0);
}

#[test]
fn test_4bit_batch_encode() {
    let d = 16;
    let m = 8;
    let n = 100;
    let mut rng = StdRng::seed_from_u64(42);

    let data: Vec<f32> = (0..n * d).map(|_| rng.gen::<f32>()).collect();

    let mut pq = ProductQuantizer::with_nbits(d, m, 4);
    pq.train(&bits(&data), n, &math());

    let cs = pq.code_size();
    let codes = pq.encode_batch(&bits(&data), n, &distances);
    assert_eq!(codes.len(), n * cs);
    for i in 0..n {
        let one = pq.encode(&bits(&data[i * d..(i + 1) * d]), &distances);
        assert_eq!(&codes[i * cs..(i + 1) * cs], one);
    }

    assert!(codes.iter().any(|&b| b != 0));
}

#[test]
fn test_balanced_chunks_encode_decode_and_distance_table() {
    let d = 7;
    let m = 3;
    let n = 100;
    let mut rng = StdRng::seed_from_u64(73);
    let data: Vec<f32> = (0..n * d).map(|_| rng.gen::<f32>()).collect();
    let mut pq = ProductQuantizer::with_nbits_balanced(d, m, 8);

    assert_eq!(pq.chunk_offsets, vec![0, 3, 5, 7]);
    assert_eq!(pq.dsub, 3);
    assert_eq!(pq.code_size(), 3);

    pq.train(&bits(&data), n, &math());
    assert!(pq.has_valid_layout());
    let query = &data[d..2 * d];
    let codes = pq.encode(&bits(query), &distances);
    let decoded = floats(&pq.decode(&codes));

    let table = pq.compute_distance_table(&bits(query), &distances);
    assert_eq!(table.len(), m * pq.ksub);
    let table_distance = f32::from_bits(pq.distance_from_table(&table, &codes, &math()));
    let decoded_distance = squared(query, &decoded);
    assert!((table_distance - decoded_distance).abs() < 1e-4);
}

#[test]
fn test_odd_4bit_chunk_count_uses_canonical_padding_nibble() {
    let d = 7;
    let m = 3;
    let n = 100;
    let mut rng = StdRng::seed_from_u64(74);
    let data: Vec<f32> = (0..n * d).map(|_| rng.gen::<f32>()).collect();
    let mut pq = ProductQuantizer::with_nbits_balanced(d, m, 4);
    pq.train(&bits(&data), n, &math());

    assert_eq!(pq.chunk_offsets, vec![0, 3, 5, 7]);
    assert_eq!(pq.code_size(), 2);
    let codes = pq.encode(&bits(&data[..d]), &distances);
    assert_eq!(codes[1] & 0xf0, 0);

    let decoded = floats(&pq.decode(&codes));
    let table = pq.compute_distance_table(&bits(&data[..d]), &distances);
    assert_eq!(table.len(), m * pq.ksub);
    let table_distance = f32::from_bits(pq.distance_from_table(&table, &codes, &math()));
    let decoded_distance = squared(&data[..d], &decoded);
    assert!((table_distance - decoded_distance).abs() < 1e-4);
}

#[test]
fn codes_name_the_nearest_centroid_of_each_chunk() {
    let mut pq = ProductQuantizer::with_nbits(2, 2, 4);
    let chunk: Vec<u32> = (0..16).map(|i| (i as f32).to_bits()).collect();
    pq.set_centroids(&vec![chunk.clone(), chunk]);
    let codes = pq.encode(&bits(&[3.2, 12.9]), &distances);
    assert_eq!(codes, vec![3 + 13 * 16]);
    assert_eq!(pq.code_of(&codes, 0), 3);
    assert_eq!(pq.code_of(&codes, 1), 13);
    assert_eq!(floats(&pq.decode(&codes)), vec![3.0, 13.0]);
}

#[test]
fn stored_chunks_are_checked() {
    let fault = |d, nbits, offsets: Vec<usize>| {
        match ProductQuantizer::try_with_chunk_offsets(d, nbits, offsets) {
            Ok(_) => None,
            Err(e) => Some(e),
        }
    };
    assert_eq!(fault(7, 8, vec![0, 3, 5, 7]), None);
    assert_eq!(fault(0, 8, vec![0, 0]), Some(IndexError::PqShape));
    assert_eq!(fault(7, 5, vec![0, 7]), Some(IndexError::PqShape));
    assert_eq!(fault(7, 8, vec![0]), Some(IndexError::PqShape));
    assert_eq!(fault(7, 8, vec![1, 7]), Some(IndexError::PqChunkBounds));
    assert_eq!(fault(7, 8, vec![0, 6]), Some(IndexError::PqChunkBounds));
    assert_eq!(
        fault(7, 8, vec![0, 3, 3, 7]),
        Some(IndexError::PqChunkOrder)
    );
}

#[test]
fn a_quantizer_without_centroids_has_no_valid_layout() {
    let pq = ProductQuantizer::new(4, 2);
    assert!(!pq.has_valid_layout());
    assert_eq!(pq.chunk_range(1), (2, 4));
}

#[test]
fn bytes_of_the_table_are_added_up() {
    // Two pairs: rows of sixteen entries 0, 10, 20, .. and 1, 2, 3, ..
    let mut table = Vec::new();
    for row in 0..4u8 {
        for entry in 0..16u8 {
            table.push(if row % 2 == 0 { entry * 10 } else { entry + 1 });
        }
    }
    let codes = [0x21, 0x00, 0x43, 0xff];
    assert_eq!(sum_codes(&table, &codes, 0, 2, 2), vec![10 + 3 + 1, 30 + 5 + 150 + 16]);
    assert_eq!(sum_codes(&table, &codes, 1, 2, 2), vec![201]);
    assert_eq!(full_precision_rows(10), 10);
    assert_eq!(full_precision_rows(1000), 200);
}

#[test]
fn a_quantizer_can_begin_with_the_centroids_it_has() {
    let d = 4;
    let n = 300;
    let mut rng = StdRng::seed_from_u64(5);
    let data: Vec<u32> = (0..n * d).map(|_| rng.gen::<f32>().to_bits()).collect();
    let mut pq = ProductQuantizer::with_nbits(d, 2, 4);
    pq.train(&data, n, &math());
    let first = pq.centroids.clone();
    let no_rounds = KMeansConfig {
        niter: 1,
        ..KMeansConfig::default()
    };
    pq.train_hot_start(&data, n, &no_rounds, true, &math());
    let moved: f32 = floats(&first)
        .iter()
        .zip(floats(&pq.centroids))
        .map(|(a, b)| (a - b).abs())
        .sum();
    assert!(moved < 1.0, "moved={}", moved);
}

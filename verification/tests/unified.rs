use paimon_vindex_core::distance::MetricType;
use paimon_vindex_core::error::{FileKind, IndexError};
use paimon_vindex_core::hnsw::HnswBuildParams;
use paimon_vindex_core::index::{
    IndexType, VectorIndexConfig, VectorIndexReader, VectorIndexWriter, VectorSearchParams,
};
use paimon_vindex_core::index_write::RowCoding;
use paimon_vindex_core::search_plan::plan_query;
use paimon_vindex_core::{ivfflat_io, ivfhnswflat_io, ivfhnswsq_read};
use paimon_vindex_core::hierarchical::kmeans_train;
use paimon_vindex_core::kmeans::{find_nearest, KMeansConfig};
use paimon_vindex_core::sq::ScalarQuantizer;
use paimon_vindex_core::vector_math::{Kernels, VectorMath};
use std::collections::HashSet;

fn bits(values: &[f32]) -> Vec<u32> {
    values.iter().map(|value| value.to_bits()).collect()
}

fn squared(a: &[f32], b: &[f32]) -> f32 {
    a.iter().zip(b).map(|(x, y)| (x - y) * (x - y)).sum()
}

fn floats(patterns: &[u32]) -> Vec<f32> {
    patterns.iter().map(|&bits| f32::from_bits(bits)).collect()
}

/// The arithmetic of single precision.
fn math() -> impl VectorMath {
    Kernels {
        distances: |rows: &Vec<u32>,
                    count: usize,
                    d: usize,
                    centroids: &Vec<u32>,
                    k: usize,
                    sizes: &Vec<usize>| {
            let (rows, centroids) = (floats(rows), floats(centroids));
            (0..count)
                .map(|i| {
                    (0..k)
                        .map(|c| {
                            let gap = squared(&rows[i * d..(i + 1) * d], &centroids[c * d..(c + 1) * d]);
                            let penalty = if sizes[c] > 0 { (sizes[c] as f32).ln() } else { 0.0 };
                            (gap + penalty).to_bits()
                        })
                        .collect()
                })
                .collect()
        },
        gap: |a: &Vec<u32>, b: &Vec<u32>| squared(&floats(a), &floats(b)).to_bits(),
        sum: |a: u32, b: u32| (f32::from_bits(a) + f32::from_bits(b)).to_bits(),
        mean: |rows: &Vec<u32>, count: usize, d: usize| {
            let rows = floats(rows);
            (0..d)
                .map(|j| {
                    let sum: f32 = (0..count).map(|i| rows[i * d + j]).sum();
                    (sum * (1.0 / count as f32)).to_bits()
                })
                .collect()
        },
        weighted_mean: |rows: &Vec<u32>, weights: &Vec<usize>, d: usize| {
            let rows = floats(rows);
            let total: f32 = weights.iter().map(|&w| w as f32).sum();
            (0..d)
                .map(|j| {
                    let sum: f32 = (0..weights.len())
                        .map(|i| weights[i] as f32 * rows[i * d + j])
                        .sum();
                    (sum / total).to_bits()
                })
                .collect()
        },
        nudged: |vector: &Vec<u32>, away: bool| {
            let eps = 1.0 / 1024.0f32;
            floats(vector)
                .iter()
                .enumerate()
                .map(|(j, value)| {
                    let up = (j % 2 == 0) == away;
                    (value * if up { 1.0 + eps } else { 1.0 - eps }).to_bits()
                })
                .collect()
        },
        settled: |before: u32, now: u32| {
            let (before, now) = (f32::from_bits(before), f32::from_bits(now));
            (before - now).abs() / before.max(1e-10) < 1e-6
        },
        target: |word: u32, total: u32| {
            let part = (word >> 8) as f32 * (1.0 / 16_777_216.0);
            (part * f32::from_bits(total)).to_bits()
        },
    }
}

const D: usize = 4;
const NLIST: usize = 2;
const N: usize = 16;

fn vectors() -> Vec<f32> {
    (0..N)
        .flat_map(|i| {
            let cluster = (i % NLIST) as f32 * 100.0;
            [cluster + i as f32 * 0.1, 1.0, 2.0, 3.0]
        })
        .collect()
}

fn code(value: u32) -> u8 {
    (f32::from_bits(value) / 256.0 * 255.0).round() as u8
}

fn decoded(codes: &Vec<u8>) -> Vec<u32> {
    codes
        .iter()
        .map(|&code| (code as f32 / 255.0 * 256.0).to_bits())
        .collect()
}

fn centroids(writer: &VectorIndexWriter) -> Vec<f32> {
    match writer {
        VectorIndexWriter::IvfFlat(index) => floats(&index.quantizer_centroids),
        VectorIndexWriter::IvfHnswFlat(index) => floats(&index.flat.quantizer_centroids),
        VectorIndexWriter::IvfHnswSq(index) => floats(&index.quantizer_centroids),
    }
}

/// The vectors of each list.
fn stored(writer: &VectorIndexWriter) -> Vec<Vec<f32>> {
    match writer {
        VectorIndexWriter::IvfFlat(index) => index.vectors.iter().map(|v| floats(v)).collect(),
        VectorIndexWriter::IvfHnswFlat(index) => {
            index.flat.vectors.iter().map(|v| floats(v)).collect()
        }
        VectorIndexWriter::IvfHnswSq(index) => {
            index.codes.iter().map(|c| floats(&decoded(c))).collect()
        }
    }
}

fn filled(config: VectorIndexConfig) -> VectorIndexWriter {
    let data = bits(&vectors());
    let ids: Vec<i64> = (100..100 + N as i64).collect();
    let mut writer = match VectorIndexWriter::new(config) {
        Ok(writer) => writer,
        Err(_) => panic!("these settings are in order"),
    };
    let prepare = |rows: &Vec<u32>| rows.clone();
    let bounds = |_: &Vec<u32>, _: usize| {
        let one = || {
            ScalarQuantizer::with_dimension_bounds(D, bits(&[0.0; D]), bits(&[256.0; D]))
        };
        (one(), (0..NLIST).map(|_| one()).collect())
    };
    let too_few = writer.train(&data, N + 1, 0, &prepare, &bounds, &math());
    assert_eq!(
        too_few,
        Err(IndexError::DataLength {
            len: N * D,
            expected: (N + 1) * D
        })
    );
    let done = writer.train(&data, N, 0, &prepare, &bounds, &math());
    assert_eq!(done, Ok(true));
    let middle = centroids(&writer);
    assert_eq!(middle.len(), NLIST * D);
    let coding = RowCoding {
        prepare: |rows: &Vec<u32>| rows.clone(),
        assign: |rows: &Vec<u32>, _: usize| {
            floats(rows)
                .chunks_exact(D)
                .map(|row| {
                    let dists: Vec<u32> = middle
                        .chunks_exact(D)
                        .map(|c| squared(row, c).to_bits())
                        .collect();
                    find_nearest(&dists)
                })
                .collect()
        },
        encode: |rows: &Vec<u32>, _: &Vec<usize>| rows.iter().map(|&v| code(v)).collect(),
    };
    assert_eq!(writer.add_vectors(&ids, &data, N, &coding), Ok(()));
    assert_eq!(
        writer.add_vectors(&ids, &data, 0, &coding).is_err(),
        true
    );
    assert_eq!(
        writer.add_vectors(&vec![1], &data, N, &coding),
        Err(IndexError::IdCount {
            len: 1,
            expected: N
        })
    );
    writer
}

fn written(config: VectorIndexConfig) -> Vec<u8> {
    let mut writer = filled(config);
    let lists = stored(&writer);
    let mut out = Vec::new();
    let r = writer.write(
        &|_: usize, codes: &Vec<u8>| decoded(codes),
        &|l: usize, a: usize, b: usize| {
            squared(&lists[l][a * D..(a + 1) * D], &lists[l][b * D..(b + 1) * D]).to_bits()
        },
        &mut out,
    );
    assert_eq!(r, Ok(()));
    out
}

fn check(config: VectorIndexConfig, kind: IndexType) {
    let file = written(config);
    let reader = match VectorIndexReader::open(&file) {
        Ok(reader) => reader,
        Err(_) => panic!("a written index can be opened"),
    };
    assert_eq!(reader.index_type(), kind);
    let metadata = reader.metadata();
    assert_eq!(metadata.dimension, D);
    assert_eq!(metadata.nlist, NLIST);
    assert_eq!(metadata.metric, MetricType::L2);
    assert_eq!(metadata.total_vectors, N as i64);
}

/// Vectors in clusters that stand apart.
fn generate_clustered_data(n: usize, d: usize, clusters: usize) -> Vec<f32> {
    (0..n)
        .flat_map(|i| {
            (0..d).map(move |j| {
                (i % clusters) as f32 * 20.0 + j as f32 * 0.01 + i as f32 * 0.0001
            })
        })
        .collect()
}

/// The least and the greatest value of each dimension.
fn dimension_bounds(data: &[f32], d: usize) -> ScalarQuantizer {
    let fold = |start: f32, pick: fn(f32, f32) -> f32| -> Vec<u32> {
        (0..d)
            .map(|j| data.chunks_exact(d).map(|row| row[j]).fold(start, pick).to_bits())
            .collect()
    };
    ScalarQuantizer::with_dimension_bounds(
        d,
        fold(f32::INFINITY, f32::min),
        fold(f32::NEG_INFINITY, f32::max),
    )
}

fn encoded(sq: &ScalarQuantizer, rows: &[f32]) -> Vec<u8> {
    rows.iter()
        .enumerate()
        .map(|(i, value)| {
            let j = i % sq.d;
            let (min, max) = (f32::from_bits(sq.mins[j]), f32::from_bits(sq.maxs[j]));
            ((value - min) / (max - min) * 255.0).round().clamp(0.0, 255.0) as u8
        })
        .collect()
}

fn decoded_by(sq: &ScalarQuantizer, codes: &[u8]) -> Vec<f32> {
    codes
        .iter()
        .enumerate()
        .map(|(i, &code)| {
            let j = i % sq.d;
            let (min, max) = (f32::from_bits(sq.mins[j]), f32::from_bits(sq.maxs[j]));
            min + (max - min) * (code as f32 / 255.0)
        })
        .collect()
}

fn nearest(row: &[f32], centroids: &[f32]) -> usize {
    let dists: Vec<u32> = centroids
        .chunks_exact(row.len())
        .map(|c| squared(row, c).to_bits())
        .collect();
    find_nearest(&dists)
}

/// The bytes of a file at a place.
fn at(file: &[u8], place: (u64, usize)) -> &[u8] {
    &file[place.0 as usize..place.0 as usize + place.1]
}

/// Opens a file and looks for one vector in all of its lists.
fn search_file(file: &[u8], query: &[f32], params: VectorSearchParams) -> (Vec<i64>, Vec<u32>) {
    let d = query.len();
    let (k, ef) = (params.top_k, params.hnsw_ef_search());
    let reader = match VectorIndexReader::open(file) {
        Ok(reader) => reader,
        Err(_) => panic!("a written index can be opened"),
    };
    let far = |vectors: &Vec<u32>, i: usize| {
        squared(query, &floats(&vectors[i * d..(i + 1) * d])).to_bits()
    };
    let probes = |centroids: &Vec<u32>, nlist: usize| {
        let row: Vec<u32> = floats(centroids)
            .chunks_exact(d)
            .map(|c| squared(query, c).to_bits())
            .collect();
        let rows = || vec![row.clone()];
        let plan = plan_query(d, d, k, params.nprobe, nlist, &rows).map_err(|_| ()).ok().unwrap();
        assert_eq!(plan.probes.len(), 1);
        plan.wanted
    };
    match reader {
        VectorIndexReader::IvfFlat(mut reader) => {
            assert!(!reader.loaded && reader.delta_ids);
            reader.ensure_loaded(at(file, reader.section_place().unwrap())).unwrap();
            let (mut lists, mut vectors) = (Vec::new(), Vec::new());
            for l in probes(&reader.quantizer_centroids, reader.nlist) {
                if let Some(place) = reader.list_place(l).unwrap() {
                    let (ids, values) = reader.read_inverted_list(l, at(file, place)).unwrap();
                    lists.push(ids);
                    vectors.push(values);
                }
            }
            let here = |l: usize, i: usize| far(&vectors[l], i);
            ivfflat_io::search_with_filter(&lists, k, None::<&HashSet<i64>>, &here)
        }
        VectorIndexReader::IvfHnswFlat(mut reader) => {
            assert!(!reader.loaded);
            reader.ensure_loaded(at(file, reader.section_place().unwrap())).unwrap();
            let mut lists = Vec::new();
            for l in probes(&reader.quantizer_centroids, reader.nlist) {
                if let Some(place) = reader.list_place(l).unwrap() {
                    lists.extend(reader.read_graph_list(l, at(file, place)).ok().unwrap());
                }
            }
            let here = |l: usize, i: usize| far(lists[l].graph.vectors(), i);
            ivfhnswflat_io::search_with_filter(&lists, k, ef, None::<&HashSet<i64>>, &here)
        }
        VectorIndexReader::IvfHnswSq(mut reader) => {
            assert!(!reader.loaded);
            assert_eq!(reader.list_sqs.len(), reader.nlist);
            reader.ensure_loaded(at(file, reader.section_place().unwrap())).unwrap();
            let decode = |l: usize, codes: &Vec<u8>| bits(&decoded_by(&reader.list_sqs[l], codes));
            let mut lists = Vec::new();
            for l in probes(&reader.quantizer_centroids, reader.nlist) {
                if let Some(meta) = reader.list_payload_meta(l).unwrap() {
                    let payload = at(file, (meta.offset, meta.payload_len));
                    lists.extend(reader.read_inverted_list(l, payload, &decode).ok().unwrap());
                }
            }
            let here = |l: usize, i: usize| far(lists[l].graph.vectors(), i);
            ivfhnswsq_read::search_with_filter(&lists, k, ef, None::<&HashSet<i64>>, &here, &here)
        }
    }
}

fn roundtrip(config: VectorIndexConfig) {
    let d = config.dimension();
    let nlist = config.nlist();
    let kind = config.index_type();
    let n = 512;
    let data = generate_clustered_data(n, d, nlist);
    let ids: Vec<i64> = (0..n as i64).collect();
    let mut writer = VectorIndexWriter::new(config).map_err(|_| ()).ok().unwrap();
    assert_eq!(writer.index_type(), kind);
    let prepare = |rows: &Vec<u32>| rows.clone();
    let bounds = |rows: &Vec<u32>, n: usize| {
        let config = KMeansConfig::default();
        let middle = floats(&kmeans_train(&config, rows, n, d, nlist, 0, &math()).unwrap());
        let rows = floats(rows);
        let of_list = |l: usize| -> Vec<f32> {
            let mine = rows.chunks_exact(d).filter(|row| nearest(row, &middle) == l);
            mine.flatten().copied().collect()
        };
        let list_bounds = (0..nlist).map(|l| dimension_bounds(&of_list(l), d)).collect();
        (dimension_bounds(&rows, d), list_bounds)
    };
    let done = writer.train(&bits(&data), n, 0, &prepare, &bounds, &math());
    assert_eq!(done, Ok(true));
    let middle = centroids(&writer);
    let (_, sqs) = bounds(&bits(&data), n);
    if let VectorIndexWriter::IvfHnswSq(index) = &writer {
        assert_eq!(index.list_sqs.len(), nlist);
        for (trained, expected) in index.list_sqs.iter().zip(&sqs) {
            assert_eq!((&trained.mins, &trained.maxs), (&expected.mins, &expected.maxs));
        }
    }
    let coding = RowCoding {
        prepare,
        assign: |rows: &Vec<u32>, _: usize| {
            floats(rows).chunks_exact(d).map(|row| nearest(row, &middle)).collect()
        },
        encode: |rows: &Vec<u32>, lists: &Vec<usize>| {
            floats(rows)
                .chunks_exact(d)
                .zip(lists)
                .flat_map(|(row, &l)| encoded(&sqs[l], row))
                .collect()
        },
    };
    assert_eq!(writer.add_vectors(&ids, &bits(&data), n, &coding), Ok(()));
    let lists: Vec<Vec<f32>> = match &writer {
        VectorIndexWriter::IvfFlat(index) => index.vectors.iter().map(|v| floats(v)).collect(),
        VectorIndexWriter::IvfHnswFlat(index) => {
            index.flat.vectors.iter().map(|v| floats(v)).collect()
        }
        VectorIndexWriter::IvfHnswSq(index) => {
            index.codes.iter().zip(&sqs).map(|(c, sq)| decoded_by(sq, c)).collect()
        }
    };
    let mut file = Vec::new();
    let r = writer.write(
        &|l: usize, codes: &Vec<u8>| bits(&decoded_by(&sqs[l], codes)),
        &|l: usize, a: usize, b: usize| {
            squared(&lists[l][a * d..(a + 1) * d], &lists[l][b * d..(b + 1) * d]).to_bits()
        },
        &mut file,
    );
    assert_eq!(r, Ok(()));
    let metadata = match VectorIndexReader::open(&file) {
        Ok(reader) => reader.metadata(),
        Err(_) => panic!("a written index can be opened"),
    };
    assert_eq!(metadata.index_type, kind);
    assert_eq!(metadata.dimension, d);
    assert_eq!(metadata.nlist, nlist);
    assert_eq!(metadata.total_vectors, n as i64);
    let params = VectorSearchParams::with_ef_search(5, nlist, 32);
    let (result_ids, result_dists) = search_file(&file, &data[0..d], params);
    assert_eq!(result_ids.len(), 5);
    assert_eq!(result_dists.len(), 5);
    assert_eq!(result_ids[0], 0);
}

#[test]
fn files_of_every_kind_are_opened_and_searched() {
    roundtrip(VectorIndexConfig::IvfFlat {
        dimension: 8,
        nlist: 4,
        metric: MetricType::L2,
    });
    roundtrip(VectorIndexConfig::IvfHnswFlat {
        dimension: 8,
        nlist: 4,
        metric: MetricType::L2,
        hnsw: HnswBuildParams::default(),
    });
    roundtrip(VectorIndexConfig::IvfHnswSq {
        dimension: 8,
        nlist: 4,
        metric: MetricType::L2,
        hnsw: HnswBuildParams::default(),
    });
}

#[test]
fn an_index_of_vectors_is_filled_written_and_opened() {
    check(
        VectorIndexConfig::IvfFlat {
            dimension: D,
            nlist: NLIST,
            metric: MetricType::L2,
        },
        IndexType::IvfFlat,
    );
}

#[test]
fn an_index_of_vectors_with_graphs_is_filled_written_and_opened() {
    check(
        VectorIndexConfig::IvfHnswFlat {
            dimension: D,
            nlist: NLIST,
            metric: MetricType::L2,
            hnsw: HnswBuildParams::default(),
        },
        IndexType::IvfHnswFlat,
    );
}

#[test]
fn an_index_of_codes_with_graphs_is_filled_written_and_opened() {
    check(
        VectorIndexConfig::IvfHnswSq {
            dimension: D,
            nlist: NLIST,
            metric: MetricType::L2,
            hnsw: HnswBuildParams::default(),
        },
        IndexType::IvfHnswSq,
    );
}

#[test]
fn an_index_without_bounds_is_not_written() {
    let mut writer = VectorIndexWriter::new(VectorIndexConfig::IvfHnswSq {
        dimension: D,
        nlist: NLIST,
        metric: MetricType::L2,
        hnsw: HnswBuildParams::default(),
    })
    .map_err(|_| ())
    .ok()
    .unwrap();
    let mut out = vec![7u8];
    let r = writer.write(
        &|_: usize, codes: &Vec<u8>| decoded(codes),
        &|_: usize, _: usize, _: usize| 0,
        &mut out,
    );
    assert!(r.is_err());
    assert_eq!(out, vec![7]);
}

/// Trains a writer to these bounds, fills it with these vectors and writes it.
fn write_with(config: VectorIndexConfig, greatest: f32, data: &[f32]) -> Result<(), IndexError> {
    let mut writer = VectorIndexWriter::new(config).map_err(|_| ()).ok().unwrap();
    let coding = RowCoding {
        prepare: |rows: &Vec<u32>| rows.clone(),
        assign: |_: &Vec<u32>, n: usize| vec![1; n],
        encode: |rows: &Vec<u32>, _: &Vec<usize>| vec![3; rows.len()],
    };
    let bounds = |_: &Vec<u32>, _: usize| {
        let one =
            || ScalarQuantizer::with_dimension_bounds(D, bits(&[0.0; D]), bits(&[greatest; D]));
        (one(), (0..NLIST).map(|_| one()).collect())
    };
    let sample = bits(&vectors());
    let done = writer.train(&sample, N, 0, &coding.prepare, &bounds, &math());
    assert_eq!(done, Ok(true));
    let n = data.len() / D;
    let ids: Vec<i64> = (0..n as i64).collect();
    assert_eq!(writer.add_vectors(&ids, &bits(data), n, &coding), Ok(()));
    let mut out = Vec::new();
    let r = writer.write(
        &|_: usize, codes: &Vec<u8>| decoded(codes),
        &|_: usize, a: usize, b: usize| (a.abs_diff(b) as f32).to_bits(),
        &mut out,
    );
    assert_eq!(r.is_ok(), !out.is_empty());
    r
}

#[test]
fn a_trained_and_filled_writer_is_written_if_its_values_can_be_compared() {
    let flat = || VectorIndexConfig::IvfHnswFlat {
        dimension: D,
        nlist: NLIST,
        metric: MetricType::L2,
        hnsw: HnswBuildParams::default(),
    };
    let codes = || VectorIndexConfig::IvfHnswSq {
        dimension: D,
        nlist: NLIST,
        metric: MetricType::L2,
        hnsw: HnswBuildParams::default(),
    };
    let whole = vec![1.0; 3 * D];
    assert_eq!(write_with(flat(), 1.0, &whole), Ok(()));
    assert_eq!(write_with(flat(), f32::INFINITY, &whole), Ok(()));
    assert_eq!(write_with(codes(), 256.0, &whole), Ok(()));
    let mut broken = whole.clone();
    broken[5] = f32::NAN;
    assert_eq!(
        write_with(flat(), 1.0, &broken),
        Err(IndexError::GraphMismatch { file: FileKind::IvfHnswFlat, list_id: 1 })
    );
    assert_eq!(
        write_with(codes(), f32::INFINITY, &whole),
        Err(IndexError::SqBoundsNotFinite { place: 0 })
    );
}

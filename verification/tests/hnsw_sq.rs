use paimon_vindex_core::distance::MetricType;
use paimon_vindex_core::error::{ErrorKind, FileKind, IndexError};
use paimon_vindex_core::hnsw::{HnswBuildParams, HnswGraph};
use paimon_vindex_core::index::{IndexType, VectorIndexReader};
use paimon_vindex_core::index_io_util::{validate_query_inputs, validate_search_inputs};
use paimon_vindex_core::ivf_search::unique_lists;
use paimon_vindex_core::ivfhnswsq::IVFHNSWSQIndex;
use paimon_vindex_core::ivfhnswsq_io::{
    write_ivfhnswsq_index, IVF_HNSW_SQ_HEADER_SIZE, IVF_HNSW_SQ_MAGIC, IVF_HNSW_SQ_VERSION,
    REQUIRED_FLAGS,
};
use paimon_vindex_core::ivfhnswsq_read::{
    in_request_order, search_batch_ivfhnswsq_reader_filter, search_with_filter,
    IVFHNSWSQIndexReader, ListPayloadMeta, SqGraphList,
};
use paimon_vindex_core::kmeans::{find_nearest, find_topk_batch};
use paimon_vindex_core::read_plan::{plan_reads, range_len, should_coalesce_gap};
use paimon_vindex_core::row_id_filter::{decode_roaring_filter, RowIdFilter};
use paimon_vindex_core::sq::{sq_global_bounds, validate_sq_bounds, ScalarQuantizer};
use paimon_vindex_core::vector_math::{Kernels, VectorMath};
use roaring::RoaringTreemap;
use std::collections::HashSet;

fn bits(values: &[f32]) -> Vec<u32> {
    values.iter().map(|value| value.to_bits()).collect()
}

fn floats(patterns: &[u32]) -> Vec<f32> {
    patterns.iter().map(|&bits| f32::from_bits(bits)).collect()
}

fn dot(a: &[f32], b: &[f32]) -> f32 {
    a.iter().zip(b).map(|(x, y)| x * y).sum()
}

fn squared(a: &[f32], b: &[f32]) -> f32 {
    a.iter().zip(b).map(|(x, y)| (x - y) * (x - y)).sum()
}

fn distance(a: &[f32], b: &[f32], metric: MetricType) -> f32 {
    match metric {
        MetricType::L2 => squared(a, b),
        MetricType::InnerProduct => -dot(a, b),
        MetricType::Cosine => 1.0 - dot(a, b) / (dot(a, a).sqrt() * dot(b, b).sqrt()),
    }
}

/// Vectors as an index takes them: with cosine distances their length does not count.
fn preprocess(data: &[f32], d: usize, metric: MetricType) -> Vec<f32> {
    let mut processed = data.to_vec();
    if metric == MetricType::Cosine {
        for row in processed.chunks_exact_mut(d) {
            let norm = dot(row, row).sqrt();
            for value in row {
                *value /= norm;
            }
        }
    }
    processed
}

fn distances_to(x: &[f32], rows: &[f32], d: usize) -> Vec<u32> {
    rows.chunks_exact(d)
        .map(|row| squared(x, row).to_bits())
        .collect()
}

/// The arithmetic of single precision.
fn math() -> impl VectorMath {
    Kernels {
        distances: |rows: &Vec<u32>,
                    count: usize,
                    d: usize,
                    centroids: &Vec<u32>,
                    k: usize,
                    sizes: &Vec<usize>| {
            let (rows, centroids) = (floats(rows), floats(centroids));
            (0..count)
                .map(|i| {
                    (0..k)
                        .map(|c| {
                            let gap = squared(&rows[i * d..(i + 1) * d], &centroids[c * d..(c + 1) * d]);
                            let penalty = if sizes[c] > 0 { (sizes[c] as f32).ln() } else { 0.0 };
                            (gap + penalty).to_bits()
                        })
                        .collect()
                })
                .collect()
        },
        gap: |a: &Vec<u32>, b: &Vec<u32>| squared(&floats(a), &floats(b)).to_bits(),
        sum: |a: u32, b: u32| (f32::from_bits(a) + f32::from_bits(b)).to_bits(),
        mean: |rows: &Vec<u32>, count: usize, d: usize| {
            let rows = floats(rows);
            (0..d)
                .map(|j| {
                    let sum: f32 = (0..count).map(|i| rows[i * d + j]).sum();
                    (sum * (1.0 / count as f32)).to_bits()
                })
                .collect()
        },
        weighted_mean: |rows: &Vec<u32>, weights: &Vec<usize>, d: usize| {
            let rows = floats(rows);
            let total: f32 = weights.iter().map(|&w| w as f32).sum();
            (0..d)
                .map(|j| {
                    let sum: f32 = (0..weights.len())
                        .map(|i| weights[i] as f32 * rows[i * d + j])
                        .sum();
                    (sum / total).to_bits()
                })
                .collect()
        },
        nudged: |vector: &Vec<u32>, away: bool| {
            let eps = 1.0 / 1024.0f32;
            floats(vector)
                .iter()
                .enumerate()
                .map(|(j, value)| {
                    let up = (j % 2 == 0) == away;
                    (value * if up { 1.0 + eps } else { 1.0 - eps }).to_bits()
                })
                .collect()
        },
        settled: |before: u32, now: u32| {
            let (before, now) = (f32::from_bits(before), f32::from_bits(now));
            (before - now).abs() / before.max(1e-10) < 1e-6
        },
        target: |word: u32, total: u32| {
            let part = (word >> 8) as f32 * (1.0 / 16_777_216.0);
            (part * f32::from_bits(total)).to_bits()
        },
    }
}

fn assign(data: &[f32], d: usize, centroids: &[f32]) -> Vec<usize> {
    data.chunks_exact(d)
        .map(|row| find_nearest(&distances_to(row, centroids, d)))
        .collect()
}

/// The lists that each query looks into.
fn probes(queries: &[f32], d: usize, centroids: &[f32], nprobe: usize) -> Vec<Vec<usize>> {
    let rows: Vec<Vec<u32>> = queries
        .chunks_exact(d)
        .map(|query| distances_to(query, centroids, d))
        .collect();
    find_topk_batch(&rows, nprobe).0
}

/// The bytes of a file at a place, as far as there are any.
fn at(file: &[u8], place: (u64, usize)) -> &[u8] {
    let start = (place.0 as usize).min(file.len());
    let end = (start + place.1).min(file.len());
    &file[start..end]
}

fn row(vectors: &[f32], d: usize, i: usize) -> &[f32] {
    &vectors[i * d..(i + 1) * d]
}

/// The least and the greatest value of each dimension.
fn bounds(data: &[f32], d: usize) -> ScalarQuantizer {
    let fold = |start: f32, pick: fn(f32, f32) -> f32| -> Vec<u32> {
        (0..d)
            .map(|j| data.chunks_exact(d).map(|row| row[j]).fold(start, pick).to_bits())
            .collect()
    };
    ScalarQuantizer::with_dimension_bounds(
        d,
        fold(f32::INFINITY, f32::min),
        fold(f32::NEG_INFINITY, f32::max),
    )
}

fn encode(sq: &ScalarQuantizer, vector: &[f32]) -> Vec<u8> {
    (0..sq.d)
        .map(|j| {
            let (min, max) = (f32::from_bits(sq.mins[j]), f32::from_bits(sq.maxs[j]));
            if max > min {
                ((vector[j] - min) / (max - min) * 255.0).round().clamp(0.0, 255.0) as u8
            } else {
                0
            }
        })
        .collect()
}

fn decode(sq: &ScalarQuantizer, codes: &[u8]) -> Vec<f32> {
    codes
        .iter()
        .enumerate()
        .map(|(i, &code)| {
            let j = i % sq.d;
            let (min, max) = (f32::from_bits(sq.mins[j]), f32::from_bits(sq.maxs[j]));
            min + (max - min) * (code as f32 / 255.0)
        })
        .collect()
}

fn copies(sqs: &[ScalarQuantizer]) -> Vec<ScalarQuantizer> {
    sqs.iter()
        .map(|sq| ScalarQuantizer::with_dimension_bounds(sq.d, sq.mins.clone(), sq.maxs.clone()))
        .collect()
}

/// An index that was trained on the vectors and holds them.
fn trained(data: &[f32], ids: &[i64], d: usize, nlist: usize, metric: MetricType) -> IVFHNSWSQIndex {
    let untrained = ScalarQuantizer::with_dimension_bounds(d, Vec::new(), Vec::new());
    let mut index = IVFHNSWSQIndex::new(d, nlist, metric, HnswBuildParams::default(), untrained);
    let prepare = |rows: &Vec<u32>| bits(&preprocess(&floats(rows), d, metric));
    let find_bounds = |rows: &Vec<u32>, n: usize| {
        let rows = floats(rows);
        assert_eq!(rows.len(), n * d);
        (bounds(&rows, d), (0..nlist).map(|_| bounds(&rows, d)).collect())
    };
    let n = ids.len();
    assert!(index.train(&bits(data), n, 0, &prepare, &find_bounds, &math()));
    assert_eq!(index.quantizer_centroids.len(), nlist * d);
    assert_eq!(index.list_sqs.len(), nlist);
    let data = preprocess(data, d, metric);
    let assignments = assign(&data, d, &floats(&index.quantizer_centroids));
    let codes: Vec<u8> = data
        .chunks_exact(d)
        .zip(&assignments)
        .flat_map(|(row, &l)| encode(&index.list_sqs[l], row))
        .collect();
    index.add(&codes, &ids.to_vec(), &assignments);
    index
}

fn built(data: &[f32], ids: &[i64], d: usize, nlist: usize, metric: MetricType) -> IVFHNSWSQIndex {
    let mut index = trained(data, ids, d, nlist, metric);
    let sqs = copies(&index.list_sqs);
    let vectors: Vec<Vec<f32>> = (0..nlist).map(|l| decode(&sqs[l], &index.codes[l])).collect();
    index
        .build_graphs(
            &|l, codes: &Vec<u8>| bits(&decode(&sqs[l], codes)),
            &|l, a, b| distance(row(&vectors[l], d, a), row(&vectors[l], d, b), metric).to_bits(),
        )
        .unwrap();
    index
}

fn write(index: &IVFHNSWSQIndex) -> Result<Vec<u8>, IndexError> {
    let sqs = copies(&index.list_sqs);
    let mut buf = Vec::new();
    let r = write_ivfhnswsq_index(
        index,
        &|l, codes: &Vec<u8>| bits(&decode(&sqs[l], codes)),
        &mut buf,
    );
    match r {
        Ok(()) => Ok(buf),
        Err(err) => {
            assert!(buf.is_empty());
            Err(err)
        }
    }
}

fn search_index<T: RowIdFilter>(
    index: &IVFHNSWSQIndex,
    query: &[f32],
    k: usize,
    nprobe: usize,
    ef: usize,
    filter: Option<&T>,
) -> (Vec<i64>, Vec<f32>) {
    let (d, metric) = (index.d, index.metric);
    let query = preprocess(query, d, metric);
    let vectors: Vec<Vec<f32>> = (0..index.nlist)
        .map(|l| decode(&index.list_sqs[l], &index.codes[l]))
        .collect();
    let probed = probes(&query, d, &floats(&index.quantizer_centroids), nprobe);
    let here = |q: usize, l: usize, i: usize| {
        distance(row(&query, d, q), row(&vectors[l], d, i), metric).to_bits()
    };
    let (labels, dists) = index.search_with_filter(&probed, k, ef, filter, &here, &here);
    if filter.is_none() {
        let all = index.search(&probed, k, ef, &here, &here);
        assert_eq!((&all.0, &all.1), (&labels, &dists));
    }
    (labels, floats(&dists))
}

fn open(file: &[u8]) -> Result<IVFHNSWSQIndexReader, IndexError> {
    let len = IVFHNSWSQIndexReader::prefix_len(at(file, (0, IVF_HNSW_SQ_HEADER_SIZE)))?;
    IVFHNSWSQIndexReader::open(at(file, (0, len)))
}

fn load(file: &[u8]) -> Result<IVFHNSWSQIndexReader, IndexError> {
    let mut reader = open(file)?;
    let place = reader.section_place()?;
    reader.ensure_loaded(at(file, place))?;
    Ok(reader)
}

/// The lists, and how many stretches of the file were read for them.
fn read_lists(
    reader: &IVFHNSWSQIndexReader,
    file: &[u8],
    list_ids: &Vec<usize>,
) -> Result<(Vec<(usize, SqGraphList)>, usize), IndexError> {
    let ranges = reader.plan_coalesced_reads(list_ids)?;
    let mut loaded = Vec::new();
    for range in &ranges {
        reader.read_coalesced_graph_list_range(
            range,
            at(file, (range.start, range_len(range)?)),
            &|l, codes: &Vec<u8>| bits(&decode(&reader.list_sqs[l], codes)),
            &mut loaded,
        )?;
    }
    Ok((in_request_order(list_ids, loaded), ranges.len()))
}

struct Found {
    labels: Vec<i64>,
    distances: Vec<f32>,
    reads: usize,
}

fn search_one<T: RowIdFilter>(
    file: &[u8],
    query: &[f32],
    k: usize,
    nprobe: usize,
    ef: usize,
    filter: Option<&T>,
) -> Result<Found, IndexError> {
    let reader = load(file)?;
    let (d, metric) = (reader.d, reader.metric);
    validate_query_inputs(query.len(), d, k, nprobe)?;
    let query = preprocess(query, d, metric);
    let probed = probes(&query, d, &floats(&reader.quantizer_centroids), nprobe);
    let (read, reads) = read_lists(&reader, file, &probed[0])?;
    let lists: Vec<SqGraphList> = read.into_iter().map(|(_, list)| list).collect();
    let vectors: Vec<Vec<f32>> = lists.iter().map(|list| floats(list.graph.vectors())).collect();
    let here =
        |l: usize, i: usize| distance(&query, row(&vectors[l], d, i), metric).to_bits();
    let (labels, dists) = search_with_filter(&lists, k, ef, filter, &here, &here);
    Ok(Found {
        labels,
        distances: floats(&dists),
        reads,
    })
}

fn search_many<T: RowIdFilter>(
    file: &[u8],
    queries: &[f32],
    nq: usize,
    k: usize,
    nprobe: usize,
    ef: usize,
    filter: Option<&T>,
) -> Result<Found, IndexError> {
    let reader = load(file)?;
    let (d, metric) = (reader.d, reader.metric);
    validate_search_inputs(queries.len(), nq, d, k, nprobe)?;
    let queries = preprocess(queries, d, metric);
    let probed = probes(&queries, d, &floats(&reader.quantizer_centroids), nprobe);
    let wanted = unique_lists(&probed, reader.nlist);
    let (read, reads) = read_lists(&reader, file, &wanted)?;
    let (loaded, lists): (Vec<usize>, Vec<SqGraphList>) = read.into_iter().unzip();
    let vectors: Vec<Vec<f32>> = lists.iter().map(|list| floats(list.graph.vectors())).collect();
    let here = |q: usize, l: usize, i: usize| {
        distance(row(&queries, d, q), row(&vectors[l], d, i), metric).to_bits()
    };
    let (labels, dists) = search_batch_ivfhnswsq_reader_filter(
        &probed, &loaded, &lists, k, ef, filter, &here, &here,
    );
    Ok(Found {
        labels,
        distances: floats(&dists),
        reads,
    })
}

fn spread(n: usize, nlist: usize) -> Vec<f32> {
    (0..n)
        .flat_map(|i| {
            let cluster = (i % nlist) as f32 * 100.0;
            [
                cluster + i as f32 * 2.0,
                10.0 + i as f32,
                20.0 + i as f32,
                30.0 + i as f32,
            ]
        })
        .collect()
}

fn clustered(n: usize, nlist: usize) -> Vec<f32> {
    (0..n)
        .flat_map(|i| {
            let cluster = (i % nlist) as f32 * 100.0;
            [cluster + i as f32 * 0.01, 1.0, 2.0, 3.0]
        })
        .collect()
}

fn roaring_bytes(ids: &[u64]) -> Vec<u8> {
    let mut allowed = RoaringTreemap::new();
    for &id in ids {
        allowed.insert(id);
    }
    let mut filter_bytes = Vec::new();
    allowed.serialize_into(&mut filter_bytes).unwrap();
    filter_bytes
}

fn header(flags: u32) -> Vec<u8> {
    let mut buf = vec![0u8; IVF_HNSW_SQ_HEADER_SIZE + 16];
    buf[0..4].copy_from_slice(&IVF_HNSW_SQ_MAGIC.to_le_bytes());
    buf[4..8].copy_from_slice(&IVF_HNSW_SQ_VERSION.to_le_bytes());
    buf[8..12].copy_from_slice(&2i32.to_le_bytes());
    buf[12..16].copy_from_slice(&1i32.to_le_bytes());
    buf[16..20].copy_from_slice(&MetricType::L2.code().to_le_bytes());
    buf[20..28].copy_from_slice(&0i64.to_le_bytes());
    buf[28..32].copy_from_slice(&2i32.to_le_bytes());
    buf[32..36].copy_from_slice(&8i32.to_le_bytes());
    buf[36..40].copy_from_slice(&3i32.to_le_bytes());
    buf[40..44].copy_from_slice(&0.0f32.to_le_bytes());
    buf[44..48].copy_from_slice(&0.0f32.to_le_bytes());
    buf[48..52].copy_from_slice(&flags.to_le_bytes());
    buf
}

const ALL: Option<&HashSet<i64>> = None;

#[test]
fn test_ivfhnswsq_recalls_query_vector() {
    let d = 4;
    let nlist = 4;
    let n = 128;
    let data = spread(n, nlist);
    let ids: Vec<i64> = (1000..1000 + n as i64).collect();
    let index = built(&data, &ids, d, nlist, MetricType::L2);

    let query_id = 23;
    let query = &data[query_id * d..(query_id + 1) * d];
    let (labels, distances) = search_index(&index, query, 5, nlist, 32, ALL);

    assert_eq!(labels[0], ids[query_id]);
    assert!(distances[0].is_finite());
}

#[test]
fn test_ivfhnswsq_without_built_graphs_falls_back_to_sq_scan() {
    let data = vec![0.0, 0.0, 0.1, 0.0, 10.0, 10.0];
    let ids = vec![10, 11, 12];
    let index = trained(&data, &ids, 2, 1, MetricType::L2);

    let (labels, _) = search_index(&index, &[0.0, 0.0], 2, 1, 8, ALL);

    assert_eq!(labels[0], 10);
}

#[test]
fn test_ivfhnswsq_search_with_filter() {
    let data = vec![0.0, 0.0, 0.1, 0.0, 10.0, 10.0];
    let ids = vec![10, 11, 12];
    let index = built(&data, &ids, 2, 1, MetricType::L2);

    let filter: HashSet<i64> = [12].into_iter().collect();
    let (labels, _) = search_index(&index, &[0.0, 0.0], 2, 1, 8, Some(&filter));

    assert_eq!(labels[0], 12);
    assert_eq!(labels[1], -1);
}

#[test]
fn test_ivfhnswsq_reader_rejects_missing_required_flags() {
    let err = match open(&header(0)) {
        Ok(_) => panic!("missing required flags should be rejected"),
        Err(err) => err,
    };
    assert!(err
        .message()
        .contains("requires delta-varint IDs and graph v1"));
}

#[test]
fn test_ivfhnswsq_reader_rejects_unknown_flags() {
    let err = match open(&header(REQUIRED_FLAGS | (1 << 31))) {
        Ok(_) => panic!("unknown flags should be rejected"),
        Err(err) => err,
    };
    assert!(err.message().contains("Unsupported IVF_HNSW_SQ flags"));
}

#[test]
fn test_ivfhnswsq_reader_rejects_nonzero_reserved_bytes() {
    let mut buf = header(REQUIRED_FLAGS);
    buf[52] = 1;

    let err = match open(&buf) {
        Ok(_) => panic!("non-zero reserved bytes should be rejected"),
        Err(err) => err,
    };
    assert!(err.message().contains("reserved bytes must be zero"));
}

#[test]
fn test_ivfhnswsq_write_read_search_roundtrip() {
    let d = 4;
    let nlist = 4;
    let n = 128;
    let data = spread(n, nlist);
    let ids: Vec<i64> = (10_000..10_000 + n as i64).collect();
    let buf = write(&built(&data, &ids, d, nlist, MetricType::L2)).unwrap();

    let query_id = 23;
    let query = &data[query_id * d..(query_id + 1) * d];
    let found = search_one(&buf, query, 5, nlist, 32, ALL).unwrap();

    assert_eq!(found.labels[0], ids[query_id]);
    assert!(found.distances[0].is_finite());
}

#[test]
fn test_ivfhnswsq_write_read_preserves_sq_dimension_bounds() {
    let nlist = 1;
    let data = vec![0.0, -100.0, 1.0, 100.0];
    let ids = vec![10, 11];
    let index = built(&data, &ids, 2, nlist, MetricType::L2);

    let buf = write(&index).unwrap();
    assert_eq!(
        u32::from_le_bytes(buf[4..8].try_into().unwrap()),
        IVF_HNSW_SQ_VERSION
    );

    let reader = open(&buf).unwrap();

    assert_eq!(reader.sq.mins, index.sq.mins);
    assert_eq!(reader.sq.maxs, index.sq.maxs);
    assert_eq!(
        sq_global_bounds(&reader.sq.mins, &reader.sq.maxs),
        sq_global_bounds(&index.sq.mins, &index.sq.maxs)
    );
    assert_eq!(
        sq_global_bounds(&reader.sq.mins, &reader.sq.maxs),
        ((-100.0f32).to_bits(), 100.0f32.to_bits())
    );
    assert_eq!(reader.list_sqs.len(), nlist);
    assert_eq!(reader.list_sqs[0].mins, index.list_sqs[0].mins);
    assert_eq!(reader.list_sqs[0].maxs, index.list_sqs[0].maxs);
}

#[test]
fn test_ivfhnswsq_reader_rejects_mismatched_sq_bounds_summary() {
    let data = vec![0.0, -100.0, 1.0, 100.0];
    let ids = vec![10, 11];
    let mut buf = write(&built(&data, &ids, 2, 1, MetricType::L2)).unwrap();
    buf[40..44].copy_from_slice(&123.0f32.to_le_bytes());

    let err = match open(&buf) {
        Ok(_) => panic!("mismatched SQ bounds summary should be rejected"),
        Err(err) => err,
    };
    assert_eq!(err.kind(), ErrorKind::InvalidData);
    assert!(err.message().contains("SQ bounds summary"));
}

#[test]
fn test_ivfhnswsq_reader_search_with_roaring_filter() {
    let data = vec![0.0, 0.0, 0.1, 0.0, 10.0, 10.0];
    let ids = vec![10, 11, 12];
    let buf = write(&built(&data, &ids, 2, 1, MetricType::L2)).unwrap();

    let filter = decode_roaring_filter(&roaring_bytes(&[12])).unwrap();
    let found = search_one(&buf, &[0.0, 0.0], 2, 1, 8, Some(&filter)).unwrap();

    assert_eq!(found.labels, vec![12, -1]);
}

#[test]
fn test_ivfhnswsq_reader_optimized_filter_search_matches_unoptimized() {
    let d = 4;
    let nlist = 4;
    let n = 128;
    let data = clustered(n, nlist);
    let ids: Vec<i64> = (0..n as i64).collect();
    let buf = write(&built(&data, &ids, d, nlist, MetricType::L2)).unwrap();

    let filter = decode_roaring_filter(&roaring_bytes(&[0, 64])).unwrap();
    let expected = search_one(&buf, &data[0..d], 3, nlist, 64, Some(&filter)).unwrap();

    // A reader that keeps all its lists answers from them.
    let reader = load(&buf).unwrap();
    let (kept, _) = read_lists(&reader, &buf, &(0..nlist).collect()).unwrap();
    let probed = probes(&data[0..d], d, &floats(&reader.quantizer_centroids), nlist);
    let (loaded, lists): (Vec<usize>, Vec<SqGraphList>) = kept.into_iter().unzip();
    let vectors: Vec<Vec<f32>> = lists.iter().map(|list| floats(list.graph.vectors())).collect();
    let here = |_: usize, l: usize, i: usize| {
        squared(&data[0..d], row(&vectors[l], d, i)).to_bits()
    };
    let (labels, dists) = search_batch_ivfhnswsq_reader_filter(
        &probed,
        &loaded,
        &lists,
        3,
        64,
        Some(&filter),
        &here,
        &here,
    );

    assert_eq!((labels, floats(&dists)), (expected.labels, expected.distances));
}

#[test]
fn test_ivfhnswsq_reader_search_coalesces_contiguous_list_reads() {
    let d = 4;
    let nlist = 4;
    let n = 128;
    let data = clustered(n, nlist);
    let ids: Vec<i64> = (0..n as i64).collect();
    let buf = write(&built(&data, &ids, d, nlist, MetricType::L2)).unwrap();

    let found = search_one(&buf, &data[0..d], 5, nlist, 32, ALL).unwrap();

    assert_eq!(found.reads, 1);
}

#[test]
fn test_ivfhnswsq_write_read_search_roundtrip_cosine() {
    let d = 3;
    let nlist = 2;
    let data = vec![1.0, 0.0, 0.0, 0.9, 0.1, 0.0, 0.0, 1.0, 0.0, 0.0, 0.9, 0.1];
    let ids = vec![10, 11, 12, 13];
    let buf = write(&built(&data, &ids, d, nlist, MetricType::Cosine)).unwrap();

    let found = search_one(&buf, &[1.0, 0.0, 0.0], 2, nlist, 16, ALL).unwrap();

    assert_eq!(found.labels[0], 10);
    assert!(found.distances[0].is_finite());
}

#[test]
fn test_ivfhnswsq_batch_matches_single_search() {
    let d = 4;
    let nlist = 4;
    let n = 128;
    let data = clustered(n, nlist);
    let ids: Vec<i64> = (0..n as i64).collect();
    let buf = write(&built(&data, &ids, d, nlist, MetricType::L2)).unwrap();
    let queries = [&data[7 * d..8 * d], &data[23 * d..24 * d]].concat();

    let batch = search_many(&buf, &queries, 2, 3, nlist, 32, ALL).unwrap();

    for qi in 0..2 {
        let query = &queries[qi * d..(qi + 1) * d];
        let single = search_one(&buf, query, 3, nlist, 32, ALL).unwrap();
        assert_eq!(
            &batch.labels[qi * 3..(qi + 1) * 3],
            single.labels.as_slice()
        );
        assert_eq!(
            &batch.distances[qi * 3..(qi + 1) * 3],
            single.distances.as_slice()
        );
    }
}

#[test]
fn test_ivfhnswsq_batch_reader_coalesces_contiguous_list_reads() {
    let d = 4;
    let nlist = 4;
    let n = 128;
    let data = clustered(n, nlist);
    let ids: Vec<i64> = (0..n as i64).collect();
    let buf = write(&built(&data, &ids, d, nlist, MetricType::L2)).unwrap();

    let found = search_many(&buf, &data[0..d], 1, 5, nlist, 32, ALL).unwrap();

    assert_eq!(found.reads, 1);
}

#[test]
fn test_ivfhnswsq_reader_coalesces_small_gap_between_requested_lists() {
    let d = 4;
    let nlist = 4;
    let n = 128;
    let data = clustered(n, nlist);
    let ids: Vec<i64> = (0..n as i64).collect();
    let buf = write(&built(&data, &ids, d, nlist, MetricType::L2)).unwrap();

    let reader = load(&buf).unwrap();
    assert!(reader.list_counts[..3].iter().all(|&count| count > 0));

    let (lists, reads) = read_lists(&reader, &buf, &vec![0, 2]).unwrap();

    assert_eq!(lists.len(), 2);
    assert_eq!(lists[0].0, 0);
    assert_eq!(lists[1].0, 2);
    assert_eq!(reads, 1);
}

#[test]
fn test_ivfhnswsq_write_requires_graphs() {
    let index = trained(&[0.0, 0.0], &[1], 2, 1, MetricType::L2);

    let err = write(&index).unwrap_err();

    assert_eq!(err.kind(), ErrorKind::InvalidInput);
    assert!(err.message().contains("build_graphs"));
}

#[test]
fn test_ivfhnswsq_writer_rejects_stale_graph() {
    let data = vec![0.0, 0.0, 1.0, 0.0];
    let mut index = built(&data, &[10, 11], 2, 1, MetricType::L2);
    let other = [10.0f32, 10.0, 11.0, 11.0];
    index.graphs[0] = Some(
        HnswGraph::build(
            &bits(&other),
            2,
            2,
            MetricType::L2,
            HnswBuildParams::default(),
            |a, b| squared(row(&other, 2, a), row(&other, 2, b)).to_bits(),
        )
        .unwrap(),
    );

    let err = write(&index).unwrap_err();

    assert_eq!(err.kind(), ErrorKind::InvalidInput);
    assert!(err.message().contains("graph does not match"));
}

#[test]
fn lists_come_in_the_order_they_were_asked_for() {
    let data = clustered(128, 4);
    let ids: Vec<i64> = (0..128).collect();
    let buf = write(&built(&data, &ids, 4, 4, MetricType::L2)).unwrap();
    let reader = load(&buf).unwrap();
    let (lists, reads) = read_lists(&reader, &buf, &vec![3, 0, 2]).unwrap();
    assert_eq!(lists.iter().map(|list| list.0).collect::<Vec<_>>(), vec![3, 0, 2]);
    assert_eq!(reads, 1);
}

#[test]
fn a_written_index_of_codes_is_opened_by_its_magic() {
    let buf = write(&built(&clustered(16, 2), &(0..16).collect::<Vec<i64>>(), 4, 2, MetricType::L2)).unwrap();
    let opened = match VectorIndexReader::open(&buf) {
        Ok(opened) => opened,
        Err(_) => panic!("a written file can be opened"),
    };
    assert_eq!(opened.index_type(), IndexType::IvfHnswSq);
    assert_eq!(opened.dimension(), 4);
    assert_eq!(opened.total_vectors(), 16);
}

#[test]
fn codes_are_read_back_beside_their_ids() {
    let index = built(&[3.0, 1.0, 2.0], &[30, 10, 20], 1, 1, MetricType::L2);
    assert_eq!(index.total_vectors(), 3);
    let buf = write(&index).unwrap();
    let reader = load(&buf).unwrap();
    let meta = reader.list_payload_meta(0).unwrap().unwrap();
    let list = reader
        .read_inverted_list(
            0,
            at(&buf, (meta.offset, meta.payload_len)),
            &|l, codes: &Vec<u8>| bits(&decode(&reader.list_sqs[l], codes)),
        )
        .unwrap()
        .unwrap();
    assert_eq!(list.ids, vec![10, 20, 30]);
    assert_eq!(list.codes, vec![0, 128, 255]);
    assert_eq!(list.graph.len(), 3);
}

#[test]
fn far_apart_lists_are_read_apart() {
    let meta = |list_id: usize, offset: u64, payload_len: usize| ListPayloadMeta {
        list_id,
        offset,
        count: 1,
        payload_len,
    };
    let near = plan_reads(&vec![meta(0, 100, 50), meta(2, 160, 40)]).unwrap();
    assert_eq!(near.len(), 1);
    assert_eq!((near[0].start, near[0].end), (100, 200));
    assert_eq!(near[0].payload_bytes, 90);
    assert_eq!(range_len(&near[0]).unwrap(), 100);
    let far = plan_reads(&vec![meta(0, 100, 50), meta(2, 1 << 40, 40)]).unwrap();
    assert_eq!(far.len(), 2);
    assert_eq!(
        plan_reads(&vec![meta(0, u64::MAX, 2)]).map(|_| ()),
        Err(IndexError::PayloadEndOverflow)
    );
    assert_eq!(
        plan_reads(&vec![meta(0, 100, 50), meta(1, 120, 50)]).map(|_| ()),
        Err(IndexError::PayloadsOverlap)
    );
    assert!(should_coalesce_gap(10, 100, 200, 50, 40));
    assert!(!should_coalesce_gap(1 << 40, 100, 200, 50, 40));
    assert!(!should_coalesce_gap(10, 100, 300, 50, 40));
}

#[test]
fn bounds_must_be_finite_and_complete() {
    let values = |values: &[f32]| bits(values);
    assert!(validate_sq_bounds(2, &values(&[0.0, 1.0]), &values(&[1.0, 2.0])).is_ok());
    assert_eq!(
        validate_sq_bounds(2, &values(&[0.0]), &values(&[1.0, 2.0])),
        Err(IndexError::SqBoundsLength {
            d: 2,
            mins: 1,
            maxs: 2
        })
    );
    assert_eq!(
        validate_sq_bounds(1, &values(&[f32::NAN]), &values(&[1.0])),
        Err(IndexError::SqBoundsNotFinite { place: 0 })
    );
    assert_eq!(
        validate_sq_bounds(1, &values(&[0.0]), &values(&[f32::INFINITY])),
        Err(IndexError::SqBoundsNotFinite { place: 0 })
    );
}

#[test]
fn indexes_of_codes_that_do_not_fit_are_not_written() {
    let data = vec![0.0, 0.0, 1.0, 0.0];
    let fresh = || built(&data, &[10, 11], 2, 1, MetricType::L2);

    let mut index = fresh();
    index.sq.d = 3;
    assert_eq!(write(&index).unwrap_err(), IndexError::SqDimension);

    let mut index = fresh();
    index.list_sqs[0].d = 3;
    assert_eq!(
        write(&index).unwrap_err(),
        IndexError::SqListDimension { list_id: 0 }
    );

    let mut index = fresh();
    index.list_sqs.clear();
    assert_eq!(write(&index).unwrap_err(), IndexError::SqListCount);

    let mut index = fresh();
    index.ids.push(vec![]);
    assert_eq!(write(&index).unwrap_err(), IndexError::ListStorage { file: FileKind::IvfHnswSq });

    let mut index = fresh();
    index.quantizer_centroids.pop();
    assert_eq!(
        write(&index).unwrap_err(),
        IndexError::CentroidLength {
            file: FileKind::IvfHnswSq,
            len: 1,
            expected: 2
        }
    );

    let mut index = fresh();
    index.codes[0].pop();
    assert_eq!(
        write(&index).unwrap_err(),
        IndexError::ListCodeLength {
            file: FileKind::IvfHnswSq,
            list_id: 0,
            len: 3,
            expected: 4
        }
    );

    let mut index = fresh();
    index.ids[0].clear();
    index.codes[0].clear();
    assert_eq!(
        write(&index).unwrap_err(),
        IndexError::GraphOfEmptyList { list_id: 0 }
    );

    let mut index = fresh();
    index.graphs[0] = None;
    assert_eq!(
        write(&index).unwrap_err(),
        IndexError::GraphNotBuilt { list_id: 0 }
    );
}

#[test]
fn broken_tables_and_lists_of_codes_have_their_errors() {
    let data = vec![0.0, 0.0, 1.0, 0.0];
    let buf = write(&built(&data, &[10, 11], 2, 1, MetricType::L2)).unwrap();
    let reader = load(&buf).unwrap();
    let table = reader.section_place().unwrap().0 as usize + 8;
    let meta = reader.list_payload_meta(0).unwrap().unwrap();
    let loading = |place: usize, bytes: &[u8]| {
        let mut copy = buf.clone();
        copy[table + place..table + place + bytes.len()].copy_from_slice(bytes);
        load(&copy).and_then(|reader| reader.list_payload_meta(0).map(|_| ())).unwrap_err()
    };
    assert_eq!(
        loading(0, &(-4i64).to_le_bytes()),
        IndexError::NegativeListOffset {
            offset: -4,
            list_id: 0
        }
    );
    assert_eq!(
        loading(8, &(-1i32).to_le_bytes()),
        IndexError::NegativeListCount {
            found: -1,
            list_id: 0
        }
    );
    assert_eq!(
        loading(12, &(-1i32).to_le_bytes()),
        IndexError::NegativeGraphBytes {
            found: -1,
            list_id: 0
        }
    );
    assert_eq!(
        loading(12, &0i32.to_le_bytes()),
        IndexError::MissingGraph { list_id: 0 }
    );
    assert_eq!(
        loading(16, &(-1i64).to_le_bytes()),
        IndexError::NegativePayloadBytes {
            offset: -1,
            list_id: 0
        }
    );
    assert_eq!(
        loading(16, &0i64.to_le_bytes()),
        IndexError::MissingPayloadLength { list_id: 0 }
    );
    let short = loading(16, &5i64.to_le_bytes());
    assert!(matches!(
        short,
        IndexError::PayloadTooShort {
            list_id: 0,
            len: 5,
            ..
        }
    ));

    let payload = at(&buf, (meta.offset, meta.payload_len)).to_vec();
    let reading = |payload: &[u8]| {
        reader
            .decode_graph_list_payload(meta, payload, &|l, codes: &Vec<u8>| {
                bits(&decode(&reader.list_sqs[l], codes))
            })
            .map(|_| ())
            .unwrap_err()
    };
    assert!(matches!(
        reading(&payload[1..]),
        IndexError::PayloadLength { list_id: 0, .. }
    ));
    let mut negative = payload.clone();
    negative[8..12].copy_from_slice(&(-1i32).to_le_bytes());
    assert_eq!(
        reading(&negative),
        IndexError::NegativeIdBytes {
            found: -1,
            list_id: 0
        }
    );
    let mut long = payload.clone();
    long[8..12].copy_from_slice(&i32::MAX.to_le_bytes());
    assert_eq!(reading(&long), IndexError::CodesTruncated { list_id: 0 });
}

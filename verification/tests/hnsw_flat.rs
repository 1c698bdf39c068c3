use paimon_vindex_core::distance::MetricType;
use paimon_vindex_core::error::{ErrorKind, IndexError};
use paimon_vindex_core::graph_codec::decode_graph;
use paimon_vindex_core::hnsw::HnswBuildParams;
use paimon_vindex_core::index::{IndexType, VectorIndexReader};
use paimon_vindex_core::index_io_util::{validate_query_inputs, validate_search_inputs};
use paimon_vindex_core::ivf_search::unique_lists;
use paimon_vindex_core::ivfhnswflat::IVFHNSWFlatIndex;
use paimon_vindex_core::ivfhnswflat_io::{
    search_batch_ivfhnswflat_reader_filter, search_with_filter, write_ivfhnswflat_index,
    IVFHNSWFlatIndexReader, IVF_HNSW_FLAT_HEADER_SIZE,
};
use paimon_vindex_core::kmeans::{count_members, find_nearest, find_topk_batch, repeat_rows};
use paimon_vindex_core::row_id_filter::{decode_roaring_filter, RowIdFilter};
use paimon_vindex_core::topk::{ReaderTopKHeap, TopKHeap};
use roaring::RoaringTreemap;
use std::collections::HashSet;

fn bits(values: &[f32]) -> Vec<u32> {
    values.iter().map(|value| value.to_bits()).collect()
}

fn floats(patterns: &[u32]) -> Vec<f32> {
    patterns.iter().map(|&bits| f32::from_bits(bits)).collect()
}

fn dot(a: &[f32], b: &[f32]) -> f32 {
    a.iter().zip(b).map(|(x, y)| x * y).sum()
}

fn squared(a: &[f32], b: &[f32]) -> f32 {
    a.iter().zip(b).map(|(x, y)| (x - y) * (x - y)).sum()
}

fn distance(a: &[f32], b: &[f32], metric: MetricType) -> f32 {
    match metric {
        MetricType::L2 => squared(a, b),
        MetricType::InnerProduct => -dot(a, b),
        MetricType::Cosine => 1.0 - dot(a, b) / (dot(a, a).sqrt() * dot(b, b).sqrt()),
    }
}

/// Vectors as an index takes them: with cosine distances their length does not count.
fn preprocess(data: &[f32], d: usize, metric: MetricType) -> Vec<f32> {
    let mut processed = data.to_vec();
    if metric == MetricType::Cosine {
        for row in processed.chunks_exact_mut(d) {
            let norm = dot(row, row).sqrt();
            for value in row {
                *value /= norm;
            }
        }
    }
    processed
}

fn distances_to(x: &[f32], rows: &[f32], d: usize) -> Vec<u32> {
    rows.chunks_exact(d)
        .map(|row| squared(x, row).to_bits())
        .collect()
}

/// Centroids by k-means, beginning with rows of the data.
fn train(data: &[f32], d: usize, nlist: usize) -> Vec<f32> {
    let n = data.len() / d;
    let mut centroids = floats(&repeat_rows(&bits(&data[..n.min(nlist) * d]), n.min(nlist), d, nlist));
    for _ in 0..10 {
        let assignments = assign(data, d, &centroids);
        let counts = count_members(&assignments, nlist);
        let mut sums = vec![0.0f32; nlist * d];
        for (row, &c) in data.chunks_exact(d).zip(&assignments) {
            for j in 0..d {
                sums[c * d + j] += row[j];
            }
        }
        for c in 0..nlist {
            for j in 0..d {
                if counts[c] > 0 {
                    centroids[c * d + j] = sums[c * d + j] / counts[c] as f32;
                }
            }
        }
    }
    centroids
}

fn assign(data: &[f32], d: usize, centroids: &[f32]) -> Vec<usize> {
    data.chunks_exact(d)
        .map(|row| find_nearest(&distances_to(row, centroids, d)))
        .collect()
}

/// The lists that each query looks into.
fn probes(queries: &[f32], d: usize, centroids: &[f32], nprobe: usize) -> Vec<Vec<usize>> {
    let rows: Vec<Vec<u32>> = queries
        .chunks_exact(d)
        .map(|query| distances_to(query, centroids, d))
        .collect();
    find_topk_batch(&rows, nprobe).0
}

/// The bytes of a file at a place, as far as there are any.
fn at(file: &[u8], place: (u64, usize)) -> &[u8] {
    let start = (place.0 as usize).min(file.len());
    let end = (start + place.1).min(file.len());
    &file[start..end]
}

fn row(vectors: &[f32], d: usize, i: usize) -> &[f32] {
    &vectors[i * d..(i + 1) * d]
}

fn trained(data: &[f32], ids: &[i64], d: usize, nlist: usize, metric: MetricType) -> IVFHNSWFlatIndex {
    let data = preprocess(data, d, metric);
    let centroids = train(&data, d, nlist);
    let mut index = IVFHNSWFlatIndex::new(d, nlist, metric, HnswBuildParams::default());
    index.flat.quantizer_centroids = bits(&centroids);
    index.add(
        &bits(&data),
        &ids.to_vec(),
        &assign(&data, d, &centroids),
    );
    index
}

fn built(data: &[f32], ids: &[i64], d: usize, nlist: usize, metric: MetricType) -> IVFHNSWFlatIndex {
    let mut index = trained(data, ids, d, nlist, metric);
    let vectors: Vec<Vec<f32>> = index.flat.vectors.iter().map(|v| floats(v)).collect();
    index
        .build_graphs(&|l, a, b| {
            distance(row(&vectors[l], d, a), row(&vectors[l], d, b), metric).to_bits()
        })
        .unwrap();
    index
}

fn written(index: &IVFHNSWFlatIndex) -> Vec<u8> {
    let mut buf = Vec::new();
    write_ivfhnswflat_index(index, &mut buf).unwrap();
    buf
}

fn search_index<T: RowIdFilter>(
    index: &IVFHNSWFlatIndex,
    query: &[f32],
    k: usize,
    nprobe: usize,
    ef: usize,
    filter: Option<&T>,
) -> (Vec<i64>, Vec<f32>) {
    let d = index.flat.d;
    let metric = index.flat.metric;
    let query = preprocess(query, d, metric);
    let vectors: Vec<Vec<f32>> = index.flat.vectors.iter().map(|v| floats(v)).collect();
    let probed = probes(&query, d, &floats(&index.flat.quantizer_centroids), nprobe);
    let here = |q: usize, l: usize, i: usize| {
        distance(row(&query, d, q), row(&vectors[l], d, i), metric).to_bits()
    };
    let (labels, dists) = index.search_with_filter(&probed, k, ef, filter, &here);
    if filter.is_none() {
        let all = index.search(&probed, k, ef, &here);
        assert_eq!((&all.0, &all.1), (&labels, &dists));
    }
    (labels, floats(&dists))
}

fn open(file: &[u8]) -> Result<IVFHNSWFlatIndexReader, IndexError> {
    let mut reader = IVFHNSWFlatIndexReader::open(at(file, (0, IVF_HNSW_FLAT_HEADER_SIZE)))?;
    let place = reader.section_place()?;
    reader.ensure_loaded(at(file, place))?;
    Ok(reader)
}

struct Found {
    labels: Vec<i64>,
    distances: Vec<f32>,
    /// How many stretches of the file were read for lists.
    reads: usize,
}

fn search_one<T: RowIdFilter>(
    file: &[u8],
    query: &[f32],
    k: usize,
    nprobe: usize,
    ef: usize,
    filter: Option<&T>,
) -> Result<Found, IndexError> {
    let reader = open(file)?;
    let (d, metric) = (reader.d, reader.metric);
    validate_query_inputs(query.len(), d, k, nprobe)?;
    let query = preprocess(query, d, metric);
    let mut reads = 0;
    let mut lists = Vec::new();
    for &l in &probes(&query, d, &floats(&reader.quantizer_centroids), nprobe)[0] {
        if let Some(place) = reader.list_place(l)? {
            reads += 1;
            lists.extend(reader.read_graph_list(l, at(file, place))?);
        }
    }
    let vectors: Vec<Vec<f32>> = lists.iter().map(|list| floats(list.graph.vectors())).collect();
    let (labels, dists) = search_with_filter(&lists, k, ef, filter, &|l, i| {
        distance(&query, row(&vectors[l], d, i), metric).to_bits()
    });
    Ok(Found {
        labels,
        distances: floats(&dists),
        reads,
    })
}

fn search_many<T: RowIdFilter>(
    file: &[u8],
    queries: &[f32],
    nq: usize,
    k: usize,
    nprobe: usize,
    ef: usize,
    filter: Option<&T>,
) -> Result<(Vec<i64>, Vec<f32>), IndexError> {
    let reader = open(file)?;
    let (d, metric) = (reader.d, reader.metric);
    validate_search_inputs(queries.len(), nq, d, k, nprobe)?;
    let queries = preprocess(queries, d, metric);
    let probed = probes(&queries, d, &floats(&reader.quantizer_centroids), nprobe);
    let mut loaded = Vec::new();
    let mut lists = Vec::new();
    for l in unique_lists(&probed, reader.nlist) {
        if let Some(place) = reader.list_place(l)? {
            if let Some(list) = reader.read_graph_list(l, at(file, place))? {
                loaded.push(l);
                lists.push(list);
            }
        }
    }
    let vectors: Vec<Vec<f32>> = lists.iter().map(|list| floats(list.graph.vectors())).collect();
    let (labels, dists) =
        search_batch_ivfhnswflat_reader_filter(&probed, &loaded, &lists, k, ef, filter, &|q, l, i| {
            distance(row(&queries, d, q), row(&vectors[l], d, i), metric).to_bits()
        });
    Ok((labels, floats(&dists)))
}

fn clustered(n: usize, nlist: usize) -> Vec<f32> {
    (0..n)
        .flat_map(|i| {
            let cluster = (i % nlist) as f32 * 100.0;
            [cluster + i as f32 * 0.01, 1.0, 2.0, 3.0]
        })
        .collect()
}

fn on_a_line(n: usize) -> Vec<f32> {
    (0..n).flat_map(|i| [i as f32, 0.0]).collect()
}

const ALL: Option<&HashSet<i64>> = None;

#[test]
fn test_ivfhnswflat_recalls_query_vector() {
    let d = 4;
    let nlist = 4;
    let n = 128;
    let data = clustered(n, nlist);
    let ids: Vec<i64> = (0..n as i64).collect();
    let index = built(&data, &ids, d, nlist, MetricType::L2);

    let query_id = 23;
    let query = &data[query_id * d..(query_id + 1) * d];
    let (labels, distances) = search_index(&index, query, 5, nlist, 32, ALL);

    assert_eq!(labels[0], ids[query_id]);
    assert_eq!(distances[0], 0.0);
}

#[test]
fn test_ivfhnswflat_without_built_graphs_falls_back_to_flat_scan() {
    let d = 4;
    let nlist = 4;
    let n = 128;
    let data = clustered(n, nlist);
    let ids: Vec<i64> = (0..n as i64).collect();
    let index = trained(&data, &ids, d, nlist, MetricType::L2);

    let query_id = 23;
    let query = &data[query_id * d..(query_id + 1) * d];
    let (labels, distances) = search_index(&index, query, 5, nlist, 32, ALL);

    assert_eq!(labels[0], ids[query_id]);
    assert_eq!(distances[0], 0.0);
}

#[test]
fn test_ivfhnswflat_selective_filter_uses_exact_results() {
    let n = 64;
    let data = on_a_line(n);
    let ids: Vec<i64> = (0..n as i64).collect();
    let index = built(&data, &ids, 2, 1, MetricType::L2);

    let filter: HashSet<i64> = [63].into_iter().collect();
    let (labels, distances) = search_index(&index, &[0.0, 0.0], 1, 1, 4, Some(&filter));

    assert_eq!(labels[0], 63);
    assert_eq!(distances[0], 63.0 * 63.0);
}

#[test]
fn test_ivfhnswflat_filter_backfills_when_graph_returns_too_few_matches() {
    let n = 128;
    let data = on_a_line(n);
    let ids: Vec<i64> = (0..n as i64).collect();
    let index = built(&data, &ids, 2, 1, MetricType::L2);

    let filter: HashSet<i64> = (0..n as i64).filter(|id| id % 2 == 0).collect();
    let (labels, _) = search_index(&index, &[127.0, 0.0], 10, 1, 1, Some(&filter));

    assert_eq!(
        labels,
        vec![126, 124, 122, 120, 118, 116, 114, 112, 110, 108]
    );
    assert!(labels.iter().all(|id| id % 2 == 0));
}

#[test]
fn test_topk_heap_keeps_closest_duplicate_id() {
    let mut heap = TopKHeap::new(2);

    heap.push(10.0f32.to_bits(), 7);
    heap.push(5.0f32.to_bits(), 8);
    heap.push(1.0f32.to_bits(), 7);

    let kept: Vec<(f32, i64)> = heap
        .into_sorted()
        .into_iter()
        .map(|(dist, id)| (f32::from_bits(dist), id))
        .collect();
    assert_eq!(kept, vec![(1.0, 7), (5.0, 8)]);
}

#[test]
fn test_ivfhnswflat_write_read_search_roundtrip() {
    let d = 4;
    let nlist = 4;
    let n = 128;
    let data = clustered(n, nlist);
    let ids: Vec<i64> = (1000..1000 + n as i64).collect();
    let index = built(&data, &ids, d, nlist, MetricType::L2);

    let query = &data[7 * d..8 * d];
    let (expected_labels, expected_distances) = search_index(&index, query, 5, nlist, 32, ALL);

    let buf = written(&index);
    let found = search_one(&buf, query, 5, nlist, 32, ALL).unwrap();

    assert_eq!(found.labels, expected_labels);
    assert_eq!(found.distances, expected_distances);
}

#[test]
fn test_ivfhnswflat_write_read_search_roundtrip_cosine() {
    let d = 3;
    let nlist = 2;
    let data = vec![1.0, 0.0, 0.0, 0.9, 0.1, 0.0, 0.0, 1.0, 0.0, 0.0, 0.9, 0.1];
    let ids = vec![10, 11, 12, 13];
    let index = built(&data, &ids, d, nlist, MetricType::Cosine);

    let query = [9.0, 1.0, 0.0];
    let (expected_labels, expected_distances) = search_index(&index, &query, 2, nlist, 8, ALL);

    let buf = written(&index);
    let found = search_one(&buf, &query, 2, nlist, 8, ALL).unwrap();

    assert_eq!(found.labels, expected_labels);
    assert_eq!(found.distances, expected_distances);
}

#[test]
fn test_ivfhnswflat_reader_filter_backfills_exact_results() {
    let n = 128;
    let data = on_a_line(n);
    let ids: Vec<i64> = (0..n as i64).collect();
    let buf = written(&built(&data, &ids, 2, 1, MetricType::L2));

    let filter: HashSet<i64> = (0..n as i64).filter(|id| id % 2 == 0).collect();
    let found = search_one(&buf, &[127.0, 0.0], 10, 1, 1, Some(&filter)).unwrap();

    assert_eq!(
        found.labels,
        vec![126, 124, 122, 120, 118, 116, 114, 112, 110, 108]
    );
}

#[test]
fn test_ivfhnswflat_batch_reader_matches_single_reader_search() {
    let d = 4;
    let nlist = 4;
    let n = 128;
    let data = clustered(n, nlist);
    let ids: Vec<i64> = (1000..1000 + n as i64).collect();
    let buf = written(&built(&data, &ids, d, nlist, MetricType::L2));

    let queries = [&data[7 * d..8 * d], &data[63 * d..64 * d]].concat();
    let k = 5;
    let nprobe = 3;
    let ef_search = 32;
    let (batch_labels, batch_distances) =
        search_many(&buf, &queries, 2, k, nprobe, ef_search, ALL).unwrap();

    for qi in 0..2 {
        let query = &queries[qi * d..(qi + 1) * d];
        let single = search_one(&buf, query, k, nprobe, ef_search, ALL).unwrap();
        assert_eq!(&batch_labels[qi * k..(qi + 1) * k], single.labels);
        assert_eq!(&batch_distances[qi * k..(qi + 1) * k], single.distances);
    }
}

#[test]
fn test_ivfhnswflat_batch_reader_search_with_roaring_filter_bytes() {
    let data = vec![0.0, 0.0, 0.1, 0.0, 10.0, 10.0];
    let ids = vec![10, 11, 12];
    let buf = written(&built(&data, &ids, 2, 1, MetricType::L2));

    let mut allowed = RoaringTreemap::new();
    allowed.insert(12);
    let mut filter_bytes = Vec::new();
    allowed.serialize_into(&mut filter_bytes).unwrap();
    let filter = decode_roaring_filter(&filter_bytes).unwrap();

    let queries = vec![0.0, 0.0, 10.0, 10.0];
    let (labels, distances) = search_many(&buf, &queries, 2, 2, 1, 4, Some(&filter)).unwrap();

    assert_eq!(labels, vec![12, -1, 12, -1]);
    assert_eq!(distances, vec![200.0, f32::MAX, 0.0, f32::MAX]);
}

#[test]
fn test_ivfhnswflat_batch_reader_validates_inputs() {
    let data = vec![0.0, 0.0, 1.0, 0.0];
    let ids = vec![10, 11];
    let buf = written(&built(&data, &ids, 2, 1, MetricType::L2));

    assert!(search_many(&buf, &[], 0, 1, 1, 4, ALL).is_err());
    assert!(search_many(&buf, &[0.0], 1, 1, 1, 4, ALL).is_err());
    assert!(search_many(&buf, &[0.0, 0.0], 1, 0, 1, 4, ALL).is_err());
    assert!(search_many(&buf, &[0.0, 0.0], 1, 1, 0, 4, ALL).is_err());
}

#[test]
fn test_ivfhnswflat_reader_filter_reads_probed_list_once() {
    let data = vec![0.0, 0.0, 1.0, 0.0, 2.0, 0.0, 3.0, 0.0];
    let ids = vec![10, 11, 12, 13];
    let buf = written(&built(&data, &ids, 2, 1, MetricType::L2));

    let filter: HashSet<i64> = [10, 12].into_iter().collect();
    let found = search_one(&buf, &[0.0, 0.0], 2, 1, 1, Some(&filter)).unwrap();

    assert_eq!(found.reads, 1);
    assert_eq!(found.labels, vec![10, 12]);
}

#[test]
fn test_ivfhnswflat_reader_rejects_truncated_graph_section() {
    let data = vec![0.0, 0.0, 1.0, 0.0, 2.0, 0.0, 3.0, 0.0];
    let ids = vec![10, 11, 12, 13];
    let mut buf = written(&built(&data, &ids, 2, 1, MetricType::L2));
    buf.pop();

    let err = match search_one(&buf, &[0.0, 0.0], 2, 1, 4, ALL) {
        Ok(_) => panic!("a truncated graph should be rejected"),
        Err(err) => err,
    };

    assert_eq!(err.kind(), ErrorKind::UnexpectedEof);
}

#[test]
fn test_ivfhnswflat_reader_rejects_missing_graph_section() {
    let d = 2;
    let nlist = 1;
    let data = vec![0.0, 0.0, 1.0, 0.0, 2.0, 0.0, 3.0, 0.0];
    let ids = vec![10, 11, 12, 13];
    let mut buf = written(&built(&data, &ids, d, nlist, MetricType::L2));
    let graph_len_offset = IVF_HNSW_FLAT_HEADER_SIZE + nlist * d * 4 + 8 + 4;
    buf[graph_len_offset..graph_len_offset + 4].copy_from_slice(&0i32.to_le_bytes());

    let err = match search_one(&buf, &[0.0, 0.0], 2, 1, 4, ALL) {
        Ok(_) => panic!("a missing graph should be rejected"),
        Err(err) => err,
    };

    assert_eq!(err.kind(), ErrorKind::InvalidData);
    assert!(err.message().contains("missing HNSW graph"));
}

#[test]
fn test_ivfhnswflat_writer_requires_built_graphs() {
    let data = vec![0.0, 0.0, 1.0, 0.0];
    let ids = vec![10, 11];
    let index = trained(&data, &ids, 2, 1, MetricType::L2);

    let mut buf = Vec::new();
    let err = write_ivfhnswflat_index(&index, &mut buf).unwrap_err();

    assert_eq!(err.kind(), ErrorKind::InvalidInput);
    assert!(err.message().contains("missing HNSW graph"));
    assert_eq!(err, IndexError::GraphNotBuilt { list_id: 0 });
    assert!(buf.is_empty());
}

#[test]
fn adding_rows_drops_the_graphs() {
    let mut index = built(&on_a_line(4), &[1, 2, 3, 4], 2, 1, MetricType::L2);
    assert!(index.graphs[0].is_some());
    index.add(&bits(&[9.0, 9.0]), &vec![5], &vec![0]);
    assert!(index.graphs[0].is_none());
    assert_eq!(index.flat.ids[0], vec![1, 2, 3, 4, 5]);
}

#[test]
fn a_written_index_is_opened_by_its_magic() {
    let buf = written(&built(&on_a_line(4), &[1, 2, 3, 4], 2, 1, MetricType::L2));
    let opened = match VectorIndexReader::open(&buf) {
        Ok(opened) => opened,
        Err(_) => panic!("a written file can be opened"),
    };
    assert_eq!(opened.index_type(), IndexType::IvfHnswFlat);
    assert_eq!(opened.dimension(), 2);
    assert_eq!(opened.total_vectors(), 4);
    assert_eq!(opened.metadata().hnsw, Some(HnswBuildParams::default()));
}

#[test]
fn vectors_are_read_back_beside_their_ids() {
    let buf = written(&built(&[3.0, 1.0, 2.0], &[30, 10, 20], 1, 1, MetricType::L2));
    let reader = open(&buf).unwrap();
    let place = reader.list_place(0).unwrap().unwrap();
    let (ids, vectors, graph) = reader.read_inverted_list(0, at(&buf, place)).unwrap();
    assert_eq!(ids, vec![30, 10, 20]);
    assert_eq!(floats(&vectors), vec![3.0, 1.0, 2.0]);
    assert!(graph.is_some());
}

#[test]
fn a_plain_heap_keeps_repeated_ids() {
    let mut heap = ReaderTopKHeap::new(2);
    heap.push(10.0f32.to_bits(), 7);
    heap.push(5.0f32.to_bits(), 8);
    heap.push(1.0f32.to_bits(), 7);
    assert_eq!(
        heap.into_sorted(),
        vec![(1.0f32.to_bits(), 7), (5.0f32.to_bits(), 8)]
    );
}

#[test]
fn a_row_as_far_as_the_farthest_is_not_taken() {
    let mut heap = TopKHeap::new(1);
    heap.push(1.0f32.to_bits(), 7);
    assert!(!heap.should_consider(1.0f32.to_bits()));
    assert!(heap.should_consider(0.5f32.to_bits()));
    heap.push(1.0f32.to_bits(), 3);
    assert_eq!(heap.len(), 1);
    assert_eq!(heap.into_sorted(), vec![(1.0f32.to_bits(), 7)]);
}

fn append_u32(buf: &mut Vec<u8>, value: u32) {
    buf.extend_from_slice(&value.to_le_bytes());
}

#[test]
fn test_ivfhnswflat_decoder_rejects_level_above_hnsw_max_before_allocation() {
    let params = HnswBuildParams {
        m: 2,
        ef_construction: 8,
        max_level: 3,
    };
    let mut graph_bytes = Vec::new();
    append_u32(&mut graph_bytes, 1);
    append_u32(&mut graph_bytes, 0);
    append_u32(&mut graph_bytes, 0);
    append_u32(&mut graph_bytes, params.max_level as u32 + 1);

    let err = decode_graph(&graph_bytes, bits(&[0.0, 0.0]), 1, 2, MetricType::L2, params)
        .map(|_| ())
        .unwrap_err();

    assert_eq!(err.kind(), ErrorKind::InvalidData);
    assert!(err.message().contains("level"));
}

#[test]
fn test_ivfhnswflat_decoder_rejects_degree_above_hnsw_bound_before_allocation() {
    let params = HnswBuildParams {
        m: 2,
        ef_construction: 8,
        max_level: 3,
    };
    let mut graph_bytes = Vec::new();
    append_u32(&mut graph_bytes, 1);
    append_u32(&mut graph_bytes, 0);
    append_u32(&mut graph_bytes, 0);
    append_u32(&mut graph_bytes, 0);
    append_u32(&mut graph_bytes, (params.m * 2) as u32 + 1);

    let err = decode_graph(&graph_bytes, bits(&[0.0, 0.0]), 1, 2, MetricType::L2, params)
        .map(|_| ())
        .unwrap_err();

    assert_eq!(err.kind(), ErrorKind::InvalidData);
    assert!(err.message().contains("degree"));
}

#[test]
fn bytes_without_a_header_show_their_first_fault() {
    let params = HnswBuildParams {
        m: 2,
        ef_construction: 8,
        max_level: 3,
    };
    let read = |numbers: &[u32]| {
        let mut bytes = Vec::new();
        for &number in numbers {
            append_u32(&mut bytes, number);
        }
        decode_graph(&bytes, bits(&[0.0, 1.0]), 2, 1, MetricType::L2, params)
            .map(|_| ())
            .unwrap_err()
    };
    assert_eq!(
        read(&[2, 0, 0, 1, 3]),
        IndexError::GraphNodeLevel {
            node: 1,
            level: 3,
            max_level: 3
        }
    );
    let upper = [2, 0, 0, 1, 0, 1, 1, 3];
    assert_eq!(
        read(&upper),
        IndexError::GraphDegree {
            node: 0,
            degree: 3,
            level: 1,
            max_degree: 2
        }
    );
    assert_eq!(
        read(&[2, 0, 0, 0, 0, 1, 1, 9]),
        IndexError::GraphDegree {
            node: 1,
            degree: 9,
            level: 0,
            max_degree: 4
        }
    );
    for whole in [
        &[2, 0, 0, 0, 0, 1, 1, 1, 0][..],
        &[2, 0, 0, 0],
        &[2, 0, 0, 0, 0, 4, 1],
    ] {
        assert_eq!(read(whole), IndexError::GraphMagic { magic: 2 });
    }
    assert_eq!(read(&[3, 0, 0, 9]), IndexError::GraphMagic { magic: 3 });
}

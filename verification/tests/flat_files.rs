use paimon_vindex_core::distance::MetricType;
use paimon_vindex_core::error::{ErrorKind, FileKind, IndexError};
use paimon_vindex_core::index::{IndexType, VectorIndexReader};
use paimon_vindex_core::index_io_util::{validate_query_inputs, validate_search_inputs};
use paimon_vindex_core::ivf_search::{search_flat_batch, unique_lists};
use paimon_vindex_core::ivfflat::IVFFlatIndex;
use paimon_vindex_core::ivfflat_io::{
    search_batch_ivfflat_reader_filter, search_with_filter, write_ivfflat_index,
    IVFFlatIndexReader, IVFFLAT_HEADER_SIZE,
};
use paimon_vindex_core::kmeans::{count_members, find_nearest, find_topk_batch, repeat_rows};
use paimon_vindex_core::row_id_filter::{decode_roaring_filter, RowIdFilter};
use paimon_vindex_core::search_plan::{plan_batch, plan_query};
use roaring::RoaringTreemap;
use std::collections::HashSet;

fn bits(values: &[f32]) -> Vec<u32> {
    values.iter().map(|value| value.to_bits()).collect()
}

fn floats(patterns: &[u32]) -> Vec<f32> {
    patterns.iter().map(|&bits| f32::from_bits(bits)).collect()
}

fn squared(a: &[f32], b: &[f32]) -> f32 {
    a.iter().zip(b).map(|(x, y)| (x - y) * (x - y)).sum()
}

fn distances_to(x: &[f32], rows: &[f32], d: usize) -> Vec<u32> {
    rows.chunks_exact(d)
        .map(|row| squared(x, row).to_bits())
        .collect()
}

/// Centroids by k-means, beginning with rows of the data.
fn train(data: &[f32], d: usize, nlist: usize) -> Vec<f32> {
    let n = data.len() / d;
    let mut centroids = floats(&repeat_rows(&bits(&data[..n.min(nlist) * d]), n.min(nlist), d, nlist));
    for _ in 0..10 {
        let assignments = assign(data, d, &centroids);
        let counts = count_members(&assignments, nlist);
        let mut sums = vec![0.0f32; nlist * d];
        for (row, &c) in data.chunks_exact(d).zip(&assignments) {
            for j in 0..d {
                sums[c * d + j] += row[j];
            }
        }
        for c in 0..nlist {
            for j in 0..d {
                if counts[c] > 0 {
                    centroids[c * d + j] = sums[c * d + j] / counts[c] as f32;
                }
            }
        }
    }
    centroids
}

fn assign(data: &[f32], d: usize, centroids: &[f32]) -> Vec<usize> {
    data.chunks_exact(d)
        .map(|row| find_nearest(&distances_to(row, centroids, d)))
        .collect()
}

/// The lists that each query looks into.
fn probes(queries: &[f32], d: usize, centroids: &[f32], nprobe: usize) -> Vec<Vec<usize>> {
    let rows: Vec<Vec<u32>> = queries
        .chunks_exact(d)
        .map(|query| distances_to(query, centroids, d))
        .collect();
    find_topk_batch(&rows, nprobe).0
}

/// The bytes of a file at a place, as far as there are any.
fn at(file: &[u8], place: (u64, usize)) -> &[u8] {
    let start = (place.0 as usize).min(file.len());
    let end = (start + place.1).min(file.len());
    &file[start..end]
}

fn row(vectors: &[f32], d: usize, i: usize) -> &[f32] {
    &vectors[i * d..(i + 1) * d]
}

fn build(data: &[f32], ids: &[i64], d: usize, nlist: usize) -> IVFFlatIndex {
    let centroids = train(data, d, nlist);
    let mut index = IVFFlatIndex::new(d, nlist, MetricType::L2);
    index.quantizer_centroids = bits(&centroids);
    index.add(
        &bits(data),
        &ids.to_vec(),
        &assign(data, d, &centroids),
    );
    index
}

fn written(index: &IVFFlatIndex) -> Vec<u8> {
    let mut buf = Vec::new();
    write_ivfflat_index(index, &mut buf).unwrap();
    buf
}

fn open(file: &[u8]) -> Result<IVFFlatIndexReader, IndexError> {
    let mut reader = IVFFlatIndexReader::open(at(file, (0, IVFFLAT_HEADER_SIZE)))?;
    let place = reader.section_place()?;
    reader.ensure_loaded(at(file, place))?;
    Ok(reader)
}

fn read(reader: &IVFFlatIndexReader, file: &[u8], l: usize) -> Result<(Vec<i64>, Vec<f32>), IndexError> {
    let payload = match reader.list_place(l)? {
        Some(place) => at(file, place),
        None => &[],
    };
    let (ids, vectors) = reader.read_inverted_list(l, payload)?;
    Ok((ids, floats(&vectors)))
}

fn search_one<T: RowIdFilter>(
    file: &[u8],
    query: &[f32],
    k: usize,
    nprobe: usize,
    filter: Option<&T>,
) -> Result<(Vec<i64>, Vec<f32>), IndexError> {
    let reader = open(file)?;
    validate_query_inputs(query.len(), reader.d, k, nprobe)?;
    let centroids = floats(&reader.quantizer_centroids);
    let mut lists = Vec::new();
    let mut vectors = Vec::new();
    for &l in &probes(query, reader.d, &centroids, nprobe)[0] {
        let (ids, values) = read(&reader, file, l)?;
        lists.push(ids);
        vectors.push(values);
    }
    let here = |l: usize, i: usize| squared(query, row(&vectors[l], reader.d, i)).to_bits();
    let (labels, dists) = search_with_filter(&lists, k, filter, &here);
    Ok((labels, floats(&dists)))
}

fn search_many<T: RowIdFilter>(
    file: &[u8],
    queries: &[f32],
    nq: usize,
    k: usize,
    nprobe: usize,
    filter: Option<&T>,
) -> Result<(Vec<i64>, Vec<f32>), IndexError> {
    let reader = open(file)?;
    validate_search_inputs(queries.len(), nq, reader.d, k, nprobe)?;
    let centroids = floats(&reader.quantizer_centroids);
    let probed = probes(queries, reader.d, &centroids, nprobe);
    let loaded = unique_lists(&probed, reader.nlist);
    let mut lists = Vec::new();
    let mut vectors = Vec::new();
    for &l in &loaded {
        let (ids, values) = read(&reader, file, l)?;
        lists.push(ids);
        vectors.push(values);
    }
    let here = |q: usize, l: usize, i: usize| {
        squared(row(queries, reader.d, q), row(&vectors[l], reader.d, i)).to_bits()
    };
    let (labels, dists) =
        search_batch_ivfflat_reader_filter(&probed, &loaded, &lists, k, filter, &here);
    Ok((labels, floats(&dists)))
}

fn clustered(n: usize, nlist: usize) -> Vec<f32> {
    (0..n)
        .flat_map(|i| {
            let cluster = (i % nlist) as f32 * 100.0;
            [cluster + i as f32 * 0.01, 1.0, 2.0, 3.0]
        })
        .collect()
}

fn roaring_bytes(id: u64) -> Vec<u8> {
    let mut allowed = RoaringTreemap::new();
    allowed.insert(id);
    let mut filter_bytes = Vec::new();
    allowed.serialize_into(&mut filter_bytes).unwrap();
    filter_bytes
}

const ALL: Option<&HashSet<i64>> = None;

#[test]
fn test_ivfflat_write_read_search_roundtrip() {
    let d = 4;
    let nlist = 4;
    let n = 128;
    let data = clustered(n, nlist);
    let ids: Vec<i64> = (1000..1000 + n as i64).collect();

    let index = build(&data, &ids, d, nlist);
    let query = &data[7 * d..8 * d];
    let probed = probes(query, d, &floats(&index.quantizer_centroids), nlist);
    let all: Vec<usize> = (0..nlist).collect();
    let vectors: Vec<Vec<f32>> = index.vectors.iter().map(|v| floats(v)).collect();
    let here = |_: usize, l: usize, i: usize| squared(query, row(&vectors[l], d, i)).to_bits();
    let (expected_labels, expected_distances) =
        search_flat_batch(&probed, &all, &index.ids, 5, ALL, &here);

    let buf = written(&index);
    let (labels, distances) = search_one(&buf, query, 5, nlist, ALL).unwrap();

    assert_eq!(labels, expected_labels);
    assert_eq!(distances, floats(&expected_distances));
    assert_eq!(labels[0], 1007);
    assert_eq!(distances[0], 0.0);
}

#[test]
fn test_ivfflat_reader_search_with_filter() {
    let data = vec![0.0, 0.0, 0.1, 0.0, 10.0, 10.0];
    let ids = vec![10, 11, 12];
    let buf = written(&build(&data, &ids, 2, 1));

    let filter: HashSet<i64> = [12].into_iter().collect();
    let (labels, distances) = search_one(&buf, &[0.0, 0.0], 2, 1, Some(&filter)).unwrap();

    assert_eq!(labels, vec![12, -1]);
    assert_eq!(distances[0], 200.0);
    assert_eq!(distances[1], f32::MAX);
}

#[test]
fn test_ivfflat_reader_search_with_roaring_filter_bytes() {
    let data = vec![0.0, 0.0, 0.1, 0.0, 10.0, 10.0];
    let ids = vec![10, 11, 12];
    let buf = written(&build(&data, &ids, 2, 1));

    let filter = decode_roaring_filter(&roaring_bytes(12)).unwrap();
    let (labels, distances) = search_one(&buf, &[0.0, 0.0], 2, 1, Some(&filter)).unwrap();

    assert_eq!(labels, vec![12, -1]);
    assert_eq!(distances[0], 200.0);
    assert_eq!(distances[1], f32::MAX);
}

#[test]
fn test_ivfflat_batch_reader_matches_single_reader_search() {
    let d = 4;
    let nlist = 4;
    let n = 128;
    let data = clustered(n, nlist);
    let ids: Vec<i64> = (1000..1000 + n as i64).collect();
    let buf = written(&build(&data, &ids, d, nlist));

    let queries = [&data[7 * d..8 * d], &data[63 * d..64 * d]].concat();
    let k = 5;
    let nprobe = 3;
    let (batch_labels, batch_distances) =
        search_many(&buf, &queries, 2, k, nprobe, ALL).unwrap();

    for qi in 0..2 {
        let query = &queries[qi * d..(qi + 1) * d];
        let (single_labels, single_distances) = search_one(&buf, query, k, nprobe, ALL).unwrap();
        assert_eq!(&batch_labels[qi * k..(qi + 1) * k], single_labels);
        assert_eq!(&batch_distances[qi * k..(qi + 1) * k], single_distances);
    }
}

#[test]
fn test_ivfflat_batch_reader_search_with_roaring_filter_bytes() {
    let data = vec![0.0, 0.0, 0.1, 0.0, 10.0, 10.0];
    let ids = vec![10, 11, 12];
    let buf = written(&build(&data, &ids, 2, 1));

    let filter = decode_roaring_filter(&roaring_bytes(12)).unwrap();
    let queries = vec![0.0, 0.0, 10.0, 10.0];
    let (labels, distances) = search_many(&buf, &queries, 2, 2, 1, Some(&filter)).unwrap();

    assert_eq!(labels, vec![12, -1, 12, -1]);
    assert_eq!(distances, vec![200.0, f32::MAX, 0.0, f32::MAX]);
}

#[test]
fn test_ivfflat_reader_validates_inputs() {
    let data = vec![0.0, 0.0, 1.0, 1.0];
    let ids = vec![1, 2];
    let buf = written(&build(&data, &ids, 2, 1));

    assert!(search_one(&buf, &[0.0], 1, 1, ALL).is_err());
    assert!(search_one(&buf, &[0.0, 0.0], 0, 1, ALL).is_err());
    assert!(search_one(&buf, &[0.0, 0.0], 1, 0, ALL).is_err());
}

#[test]
fn test_ivfflat_writer_validates_shape_before_writing() {
    let mut index = IVFFlatIndex::new(2, 1, MetricType::L2);
    index.quantizer_centroids = bits(&[0.0, 0.0]);
    index.ids[0] = vec![1, 2];
    index.vectors[0] = bits(&[0.0, 0.0]);

    let mut buf = Vec::new();
    let err = write_ivfflat_index(&index, &mut buf).unwrap_err();

    assert_eq!(err.kind(), ErrorKind::InvalidInput);
    assert!(err.message().contains("vector length"));
    assert!(buf.is_empty());
}

#[test]
fn test_ivfflat_reader_rejects_bad_magic() {
    let mut buf = vec![0u8; IVFFLAT_HEADER_SIZE];
    buf[0..4].copy_from_slice(&0x12345678u32.to_le_bytes());

    let err = match open(&buf) {
        Ok(_) => panic!("bad magic should be rejected"),
        Err(err) => err,
    };
    assert_eq!(err.kind(), ErrorKind::InvalidData);
    assert_eq!(err, IndexError::FileMagic { file: FileKind::IvfFlat, magic: 0x12345678 });
}

#[test]
fn a_written_index_is_read_back_with_its_ids_sorted() {
    let data = vec![3.0, 1.0, 2.0];
    let mut index = build(&data, &[30, -10, 20], 1, 1);
    index.ids[0] = vec![30, -10, 20];
    let buf = written(&index);
    let reader = open(&buf).unwrap();
    let (ids, vectors) = read(&reader, &buf, 0).unwrap();
    assert_eq!(ids, vec![-10, 20, 30]);
    assert_eq!(vectors, vec![1.0, 2.0, 3.0]);
    assert_eq!(reader.total_vectors, 3);
    let opened = match VectorIndexReader::open(&buf) {
        Ok(opened) => opened,
        Err(_) => panic!("a written file can be opened"),
    };
    assert_eq!(opened.index_type(), IndexType::IvfFlat);
    assert_eq!(opened.dimension(), 1);
    assert_eq!(opened.total_vectors(), 3);
    assert_eq!(opened.metadata().nlist, 1);
    assert_eq!(opened.metadata().hnsw, None);
}

#[test]
fn a_file_can_be_appended_to_what_is_there() {
    let index = build(&[1.0, 2.0], &[7, 8], 1, 1);
    let mut buf = vec![1u8, 2, 3];
    write_ivfflat_index(&index, &mut buf).unwrap();
    assert_eq!(&buf[..3], &[1, 2, 3]);
    assert_eq!(&buf[3..7], &0x4956464Cu32.to_le_bytes());
}

#[test]
fn broken_headers_have_their_errors() {
    let buf = written(&build(&[1.0, 2.0], &[7, 8], 1, 1));
    let broken = |place: usize, value: u32| {
        let mut copy = buf.clone();
        copy[place..place + 4].copy_from_slice(&value.to_le_bytes());
        match open(&copy) {
            Ok(_) => panic!("a broken header should be rejected"),
            Err(err) => err,
        }
    };
    assert_eq!(broken(4, 9), IndexError::FileVersion { file: FileKind::IvfFlat, version: 9 });
    assert!(matches!(
        broken(8, 0),
        IndexError::HeaderNotPositive { found: 0, .. }
    ));
    assert!(matches!(
        broken(12, u32::MAX),
        IndexError::HeaderNotPositive { found: -1, .. }
    ));
    assert_eq!(broken(16, 9), IndexError::UnknownMetric { code: 9 });
    assert_eq!(
        open(&buf[..60]).map(|_| ()).unwrap_err().kind(),
        ErrorKind::UnexpectedEof
    );
    let reader = open(&buf).unwrap();
    assert_eq!(
        reader.list_place(1),
        Err(IndexError::ListIdRange {
            list_id: 1,
            nlist: 1
        })
    );
}

#[test]
fn each_probed_list_is_read_once() {
    let probed = vec![vec![2, 0], vec![0, 3], vec![2, 2]];
    assert_eq!(unique_lists(&probed, 4), vec![2, 0, 3]);
}

#[test]
fn requests_that_make_no_sense_are_refused() {
    assert_eq!(
        validate_search_inputs(0, 0, 2, 1, 1),
        Err(IndexError::NqZero)
    );
    assert_eq!(
        validate_search_inputs(3, 2, 2, 1, 1),
        Err(IndexError::QueriesLength {
            len: 3,
            expected: 4
        })
    );
    assert_eq!(
        validate_search_inputs(4, usize::MAX, 2, 1, 1),
        Err(IndexError::QuerySizeOverflow)
    );
    assert_eq!(
        validate_search_inputs(4, 2, 2, 0, 1),
        Err(IndexError::KZero)
    );
    assert_eq!(
        validate_search_inputs(4, 2, 2, 1, 0),
        Err(IndexError::NprobeZero)
    );
    assert_eq!(
        validate_query_inputs(1, 2, 1, 1),
        Err(IndexError::QueryLength {
            len: 1,
            expected: 2
        })
    );
}

#[test]
fn bytes_that_are_no_filter_are_refused() {
    let err = match decode_roaring_filter(&[1, 2, 3]) {
        Ok(_) => panic!("three bytes are no filter"),
        Err(err) => err,
    };
    assert_eq!(err, IndexError::RoaringFilter);
    assert_eq!(err.kind(), ErrorKind::InvalidInput);
    let filter = decode_roaring_filter(&roaring_bytes(5)).unwrap();
    assert!(RowIdFilter::contains(&filter, 5));
    assert!(!RowIdFilter::contains(&filter, 6));
    assert!(!RowIdFilter::contains(&filter, -5));
}

#[test]
fn lists_that_disagree_with_their_table_are_refused() {
    let buf = written(&build(&[1.0, 2.0], &[7, 8], 1, 1));
    let reader = open(&buf).unwrap();
    let place = reader.list_place(0).unwrap().unwrap();
    let mut payload = at(&buf, place).to_vec();
    payload[8] += 1;
    assert_eq!(
        reader.read_inverted_list(0, &payload).map(|_| ()),
        Err(IndexError::IdBytesMismatch { file: FileKind::IvfFlat })
    );
    let mut id_bytes = buf.clone();
    let table = reader.section_place().unwrap().0 as usize + 4;
    id_bytes[table + 12..table + 16].copy_from_slice(&(-1i32).to_le_bytes());
    assert_eq!(
        open(&id_bytes).map(|_| ()),
        Err(IndexError::NegativeIdBytes {
            found: -1,
            list_id: 0
        })
    );
}

#[test]
fn indexes_of_vectors_that_do_not_fit_are_not_written() {
    let refused = |index: &IVFFlatIndex| {
        let mut buf = Vec::new();
        let err = write_ivfflat_index(index, &mut buf).unwrap_err();
        assert!(buf.is_empty());
        err
    };
    let mut index = build(&[1.0, 2.0], &[7, 8], 1, 1);
    index.vectors[0].push(0);
    assert_eq!(
        refused(&index),
        IndexError::ListVectorLength {
            list_id: 0,
            len: 3,
            expected: 2
        }
    );
    let mut index = build(&[1.0, 2.0], &[7, 8], 1, 1);
    index.quantizer_centroids.push(0);
    assert_eq!(
        refused(&index),
        IndexError::CentroidLength {
            file: FileKind::IvfFlat,
            len: 2,
            expected: 1
        }
    );
    let mut index = build(&[1.0, 2.0], &[7, 8], 1, 1);
    index.ids.push(vec![]);
    assert_eq!(refused(&index), IndexError::ListStorage { file: FileKind::IvfFlat });
}

#[test]
fn rows_that_do_not_pass_need_no_distance() {
    let lists = vec![vec![1i64, 2], vec![3]];
    let filter: HashSet<i64> = HashSet::from([1, 3]);
    let distances = [[0.5f32, f32::NAN], [0.25, 0.0]];
    let (ids, found) = search_with_filter(&lists, 3, Some(&filter), &|l: usize, row: usize| {
        distances[l][row].to_bits()
    });
    assert_eq!(ids, vec![3, 1, -1]);
    assert_eq!(floats(&found), vec![0.25, 0.5, f32::MAX]);
}

#[test]
fn a_distance_that_is_compared_with_no_other_may_be_a_nan() {
    let none: Option<&HashSet<i64>> = None;
    let lists = vec![vec![1i64, 2, 3]];
    let distances = [f32::NAN, 0.5, f32::NAN];
    let far = |_: usize, row: usize| distances[row].to_bits();
    let (ids, found) = search_with_filter(&lists, 1, none, &far);
    assert_eq!(ids, vec![1]);
    assert!(f32::from_bits(found[0]).is_nan());
    let only: HashSet<i64> = HashSet::from([3]);
    let (ids, found) = search_with_filter(&lists, 2, Some(&only), &far);
    assert_eq!(ids, vec![3, -1]);
    assert!(f32::from_bits(found[0]).is_nan());
    let plan = plan_query(2, 2, 1, 1, 1, &|| vec![bits(&[f32::NAN])]).ok().unwrap();
    assert_eq!(plan.probes, vec![vec![0]]);
}

#[test]
fn a_search_begins_with_checks_and_picks() {
    let rows = || vec![bits(&[3.0, 1.0, 2.0]), bits(&[1.0, 5.0, 0.0])];
    let plan = plan_batch(4, 2, 2, 1, 2, 3, &rows).ok().unwrap();
    assert_eq!(plan.probes, vec![vec![1, 2], vec![2, 0]]);
    assert_eq!(plan.wanted, vec![1, 2, 0]);
    let one = plan_query(2, 2, 1, 9, 3, &|| vec![bits(&[3.0, 1.0, 2.0])]).ok().unwrap();
    assert_eq!(one.probes, vec![vec![1, 2, 0]]);
    assert_eq!(one.wanted, vec![1, 2, 0]);
    let never = || unreachable!("nothing is computed for a search that is refused");
    let refused = |len, nq, k, nprobe| plan_batch(len, nq, 2, k, nprobe, 3, &never).err();
    assert_eq!(refused(4, 0, 1, 1), Some(IndexError::NqZero));
    assert_eq!(refused(4, 2, 0, 1), Some(IndexError::KZero));
    assert_eq!(refused(4, 2, 1, 0), Some(IndexError::NprobeZero));
    assert_eq!(
        refused(3, 2, 1, 1),
        Some(IndexError::QueriesLength { len: 3, expected: 4 })
    );
    assert_eq!(
        plan_query(3, 2, 1, 1, 3, &never).err(),
        Some(IndexError::QueryLength { len: 3, expected: 2 })
    );
}

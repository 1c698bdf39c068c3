use paimon_vindex_core::autotune::DiskAnnBuildParams;
use paimon_vindex_core::coarse::CoarseAssignment;
use paimon_vindex_core::distance::MetricType;
use paimon_vindex_core::error::{ErrorKind, FileKind, IndexError};
use paimon_vindex_core::index_io_util::validate_query_inputs;
use paimon_vindex_core::ivfrq::{code_size_of, IVFRQIndex, RQCodeFactors};
use paimon_vindex_core::ivfrq_add::RQCoding;
use paimon_vindex_core::ivfrq_io::{
    bytes_to_factors, search_batch_ivfrq_reader_filter, validate_query_bits, write_factors,
    write_ivfrq_index, IVFRQIndexReader, RQReadList, FORMAT_FLAG_EX_CODES_PRESENT,
    IVF_RQ_FACTOR_LAYOUT_RABITQ_V1, IVF_RQ_HEADER_SIZE, IVF_RQ_NUM_BITS_ONE,
    IVF_RQ_ROTATION_TYPE_KAC,
};
use paimon_vindex_core::kmeans::{find_nearest, find_topk_batch};
use paimon_vindex_core::vector_math::{Kernels, VectorMath};
use std::collections::HashSet;

fn bits(values: &[f32]) -> Vec<u32> {
    values.iter().map(|value| value.to_bits()).collect()
}

fn floats(patterns: &[u32]) -> Vec<f32> {
    patterns.iter().map(|&bits| f32::from_bits(bits)).collect()
}

fn dot(a: &[f32], b: &[f32]) -> f32 {
    a.iter().zip(b).map(|(x, y)| x * y).sum()
}

fn squared(a: &[f32], b: &[f32]) -> f32 {
    a.iter().zip(b).map(|(x, y)| (x - y) * (x - y)).sum()
}

fn distances_to(x: &[f32], rows: &[f32], d: usize) -> Vec<u32> {
    rows.chunks_exact(d)
        .map(|row| squared(x, row).to_bits())
        .collect()
}

/// The arithmetic of single precision.
fn math() -> impl VectorMath {
    Kernels {
        distances: |rows: &Vec<u32>,
                    count: usize,
                    d: usize,
                    centroids: &Vec<u32>,
                    k: usize,
                    sizes: &Vec<usize>| {
            let (rows, centroids) = (floats(rows), floats(centroids));
            (0..count)
                .map(|i| {
                    (0..k)
                        .map(|c| {
                            let gap = squared(&rows[i * d..(i + 1) * d], &centroids[c * d..(c + 1) * d]);
                            let penalty = if sizes[c] > 0 { (sizes[c] as f32).ln() } else { 0.0 };
                            (gap + penalty).to_bits()
                        })
                        .collect()
                })
                .collect()
        },
        gap: |a: &Vec<u32>, b: &Vec<u32>| squared(&floats(a), &floats(b)).to_bits(),
        sum: |a: u32, b: u32| (f32::from_bits(a) + f32::from_bits(b)).to_bits(),
        mean: |rows: &Vec<u32>, count: usize, d: usize| {
            let rows = floats(rows);
            (0..d)
                .map(|j| {
                    let sum: f32 = (0..count).map(|i| rows[i * d + j]).sum();
                    (sum * (1.0 / count as f32)).to_bits()
                })
                .collect()
        },
        weighted_mean: |rows: &Vec<u32>, weights: &Vec<usize>, d: usize| {
            let rows = floats(rows);
            let total: f32 = weights.iter().map(|&w| w as f32).sum();
            (0..d)
                .map(|j| {
                    let sum: f32 = (0..weights.len())
                        .map(|i| weights[i] as f32 * rows[i * d + j])
                        .sum();
                    (sum / total).to_bits()
                })
                .collect()
        },
        nudged: |vector: &Vec<u32>, away: bool| {
            let eps = 1.0 / 1024.0f32;
            floats(vector)
                .iter()
                .enumerate()
                .map(|(j, value)| {
                    let up = (j % 2 == 0) == away;
                    (value * if up { 1.0 + eps } else { 1.0 - eps }).to_bits()
                })
                .collect()
        },
        settled: |before: u32, now: u32| {
            let (before, now) = (f32::from_bits(before), f32::from_bits(now));
            (before - now).abs() / before.max(1e-10) < 1e-6
        },
        target: |word: u32, total: u32| {
            let part = (word >> 8) as f32 * (1.0 / 16_777_216.0);
            (part * f32::from_bits(total)).to_bits()
        },
    }
}

/// An index with trained centroids.
fn trained(data: &[f32], n: usize, d: usize, nlist: usize) -> IVFRQIndex {
    let mut index = IVFRQIndex::with_options(d, nlist, MetricType::L2, 7, 4);
    let mut assignment: CoarseAssignment<usize> = CoarseAssignment::default();
    let prepare = |rows: &Vec<u32>| rows.clone();
    let build = |_: &Vec<u32>, _: DiskAnnBuildParams| -> Option<usize> { unreachable!() };
    let data = bits(data);
    assert!(index.train(&data, n, 0, &prepare, &mut assignment, &build, &math()));
    assert!(assignment.build_attempted);
    index
}

fn assign(data: &[f32], d: usize, centroids: &[f32]) -> Vec<usize> {
    data.chunks_exact(d)
        .map(|row| find_nearest(&distances_to(row, centroids, d)))
        .collect()
}

/// The lists that each query looks into.
fn probes(queries: &[f32], d: usize, centroids: &[f32], nprobe: usize) -> Vec<Vec<usize>> {
    let rows: Vec<Vec<u32>> = queries
        .chunks_exact(d)
        .map(|query| distances_to(query, centroids, d))
        .collect();
    find_topk_batch(&rows, nprobe).0
}

/// The bytes of a file at a place, as far as there are any.
fn at(file: &[u8], place: (u64, usize)) -> &[u8] {
    let start = (place.0 as usize).min(file.len());
    let end = (start + place.1).min(file.len());
    &file[start..end]
}

fn row(vectors: &[f32], d: usize, i: usize) -> &[f32] {
    &vectors[i * d..(i + 1) * d]
}

/// What is stored of a vector: the sign of each coordinate, seen from the centroid, and the
/// squared lengths of the difference and of the vector itself.
fn encoded(vector: &[f32], centroid: &[f32]) -> (Vec<u8>, RQCodeFactors) {
    let residual: Vec<f32> = vector.iter().zip(centroid).map(|(x, c)| x - c).collect();
    let mut code = vec![0u8; code_size_of(vector.len())];
    for (j, &value) in residual.iter().enumerate() {
        if value >= 0.0 {
            code[j / 8] |= 1 << (j % 8);
        }
    }
    let norm = dot(&residual, &residual);
    let spread: f32 = residual.iter().map(|value| value.abs()).sum();
    let factors = RQCodeFactors {
        residual_norm_sqr: norm.to_bits(),
        vector_norm_sqr: dot(vector, vector).to_bits(),
        dp_multiplier: (if spread > 0.0 { norm / spread } else { 0.0 }).to_bits(),
    };
    (code, factors)
}

/// The estimate of the squared distance between a query and a stored vector, with the query
/// rounded to `query_bits` bits where that is not zero.
fn estimate(
    query: &[f32],
    centroid: &[f32],
    code: &[u8],
    factors: RQCodeFactors,
    query_bits: usize,
) -> f32 {
    let mut residual: Vec<f32> = query.iter().zip(centroid).map(|(x, c)| x - c).collect();
    let norm = dot(&residual, &residual);
    if query_bits > 0 {
        let greatest = residual.iter().fold(0.0f32, |a, value| a.max(value.abs()));
        let step = greatest / ((1 << (query_bits - 1)) - 1) as f32;
        for value in &mut residual {
            *value = (*value / step).round() * step;
        }
    }
    let along: f32 = residual
        .iter()
        .enumerate()
        .map(|(j, &value)| {
            if code[j / 8] >> (j % 8) & 1 == 1 {
                value
            } else {
                -value
            }
        })
        .sum();
    norm + f32::from_bits(factors.residual_norm_sqr)
        - 2.0 * along * f32::from_bits(factors.dp_multiplier)
}

/// The vectors go as they are to their nearest list, each with its code.
fn fill(index: &mut IVFRQIndex, data: &[f32], ids: &[i64], centroids: &[f32]) {
    let d = index.d;
    let coding = RQCoding {
        prepare: |vectors: &Vec<u32>| vectors.clone(),
        assign: |vectors: &Vec<u32>, _: usize| assign(&floats(vectors), d, centroids),
        encode: |vectors: &Vec<u32>, lists: &Vec<usize>| {
            let (codes, factors): (Vec<Vec<u8>>, Vec<RQCodeFactors>) = floats(vectors)
                .chunks_exact(d)
                .zip(lists)
                .map(|(vector, &l)| encoded(vector, row(centroids, d, l)))
                .unzip();
            (codes.concat(), factors)
        },
    };
    index.add(&bits(data), &ids.to_vec(), ids.len(), &coding);
}

fn built(data: &[f32], ids: &[i64], d: usize, nlist: usize) -> IVFRQIndex {
    let mut index = trained(data, ids.len(), d, nlist);
    let centroids = floats(&index.quantizer_centroids);
    fill(&mut index, data, ids, &centroids);
    index
}

fn written(index: &IVFRQIndex) -> Vec<u8> {
    let mut buf = Vec::new();
    write_ivfrq_index(index, &mut buf).unwrap();
    buf
}

fn open(file: &[u8]) -> Result<IVFRQIndexReader, IndexError> {
    IVFRQIndexReader::open(at(file, (0, IVF_RQ_HEADER_SIZE)))
}

fn load(file: &[u8]) -> Result<IVFRQIndexReader, IndexError> {
    let mut reader = open(file)?;
    let place = reader.section_place()?;
    reader.ensure_loaded(at(file, place))?;
    Ok(reader)
}

fn search(
    file: &[u8],
    query: &[f32],
    k: usize,
    nprobe: usize,
    query_bits: usize,
) -> Result<(Vec<i64>, Vec<f32>), IndexError> {
    let reader = load(file)?;
    validate_query_inputs(query.len(), reader.d, k, nprobe)?;
    validate_query_bits(query_bits)?;
    let centroids = floats(&reader.quantizer_centroids);
    let probed = probes(query, reader.d, &centroids, nprobe);
    let mut lists: Vec<RQReadList> = Vec::new();
    for &l in &probed[0] {
        let payload = match reader.list_place(l)? {
            Some(place) => at(file, place),
            None => &[],
        };
        lists.push(reader.read_inverted_list(l, payload)?);
    }
    let ids: Vec<Vec<i64>> = lists.iter().map(|list| list.ids.clone()).collect();
    let here = |_: usize, l: usize, i: usize| {
        let list = &lists[l];
        let width = reader.code_size;
        estimate(
            query,
            row(&centroids, reader.d, list.list_id),
            &list.codes[i * width..(i + 1) * width],
            list.factors[i],
            query_bits,
        )
        .to_bits()
    };
    let all: Option<&HashSet<i64>> = None;
    let (labels, dists) =
        search_batch_ivfrq_reader_filter(&probed, &probed[0], &ids, k, all, &here);
    Ok((labels, floats(&dists)))
}

fn tiny_ivfrq_index() -> IVFRQIndex {
    let data: Vec<f32> = vec![
        0.0, 0.0, 0.0, 0.0, 0.0, 0.0, 0.0, 0.0, 10.0, 10.0, 10.0, 10.0, 10.0, 10.0, 10.0, 10.0,
    ];
    built(&data, &[7, 42], 8, 2)
}

fn open_err(buf: Vec<u8>) -> IndexError {
    match open(&buf) {
        Ok(_) => panic!("expected IVF-RQ open to fail"),
        Err(err) => err,
    }
}

#[test]
fn ivfrq_write_read_search_roundtrip() {
    let d = 8;
    let nlist = 4;
    let n = 128;
    let data: Vec<f32> = (0..n)
        .flat_map(|i| {
            let cluster = (i % nlist) as f32 * 100.0;
            [cluster + i as f32 * 0.01, 1.0, 2.0, 3.0, 4.0, 5.0, 6.0, 7.0]
        })
        .collect();
    let ids: Vec<i64> = (1000..1000 + n as i64).collect();
    let index = built(&data, &ids, d, nlist);
    assert_eq!(index.total_vectors(), n);

    let (labels, distances) = search(&written(&index), &data[7 * d..8 * d], 5, nlist, 0).unwrap();

    assert_eq!(labels[0], ids[7]);
    assert!(distances[0] <= 1e-4);
}

#[test]
fn ivfrq_reader_search_with_query_bits() {
    let d = 16;
    let nlist = 4;
    let n = 128;
    let data: Vec<f32> = (0..n)
        .flat_map(|i| {
            let cluster = (i % nlist) as f32 * 25.0;
            (0..d).map(move |j| cluster + i as f32 * 0.02 + j as f32 * 0.125)
        })
        .collect();
    let ids: Vec<i64> = (1000..1000 + n as i64).collect();
    let buf = written(&built(&data, &ids, d, nlist));

    let query = &data[37 * d..38 * d];
    for query_bits in [0, 4, 8] {
        let (labels, distances) = search(&buf, query, 5, nlist, query_bits).unwrap();
        assert_eq!(labels[0], ids[37], "query_bits={}", query_bits);
        if query_bits == 0 {
            assert!(distances[0] <= 1e-3);
        } else {
            assert!(distances[0].is_finite());
        }
    }
}

#[test]
fn ivfrq_reader_rejects_invalid_query_bits() {
    let d = 8;
    let nlist = 1;
    let n = 8;
    let data: Vec<f32> = (0..n)
        .flat_map(|i| (0..d).map(move |j| i as f32 + j as f32 * 0.25))
        .collect();
    let ids: Vec<i64> = (0..n as i64).collect();
    let buf = written(&built(&data, &ids, d, nlist));

    let err = search(&buf, &data[0..d], 1, nlist, 7).unwrap_err();
    assert!(err.message().contains("query_bits"));
    for query_bits in [0, 4, 8] {
        assert!(search(&buf, &data[0..d], 1, nlist, query_bits).is_ok());
    }
}

#[test]
fn ivfrq_header_records_current_rq_format_fields() {
    let buf = written(&tiny_ivfrq_index());

    assert_eq!(
        u32::from_le_bytes(buf[48..52].try_into().unwrap()),
        IVF_RQ_NUM_BITS_ONE
    );
    assert_eq!(
        u32::from_le_bytes(buf[52..56].try_into().unwrap()),
        IVF_RQ_ROTATION_TYPE_KAC
    );
    assert_eq!(
        u32::from_le_bytes(buf[56..60].try_into().unwrap()),
        IVF_RQ_FACTOR_LAYOUT_RABITQ_V1
    );
    assert_eq!(u32::from_le_bytes(buf[60..64].try_into().unwrap()), 0);

    let reader = open(&buf).unwrap();
    assert_eq!(reader.num_bits, IVF_RQ_NUM_BITS_ONE);
    assert_eq!(reader.rotation_type, IVF_RQ_ROTATION_TYPE_KAC);
    assert_eq!(reader.factor_layout, IVF_RQ_FACTOR_LAYOUT_RABITQ_V1);
    assert_eq!(reader.format_flags, 0);
}

#[test]
fn ivfrq_reader_rejects_reserved_future_format_fields() {
    let buf = written(&tiny_ivfrq_index());

    let mut future_num_bits = buf.clone();
    future_num_bits[48..52].copy_from_slice(&2u32.to_le_bytes());
    let err = open_err(future_num_bits);
    assert!(err.message().contains("num_bits=1"));

    let mut unknown_rotation = buf.clone();
    unknown_rotation[52..56].copy_from_slice(&99u32.to_le_bytes());
    let err = open_err(unknown_rotation);
    assert!(err.message().contains("rotation_type"));

    let mut unknown_layout = buf.clone();
    unknown_layout[56..60].copy_from_slice(&99u32.to_le_bytes());
    let err = open_err(unknown_layout);
    assert!(err.message().contains("factor_layout"));

    let mut optional_sections = buf;
    optional_sections[60..64].copy_from_slice(&FORMAT_FLAG_EX_CODES_PRESENT.to_le_bytes());
    let err = open_err(optional_sections);
    assert!(err.message().contains("optional sections"));
}

#[test]
fn other_header_fields_of_one_bit_codes_are_checked() {
    let buf = written(&tiny_ivfrq_index());
    let broken = |place: usize, value: u32| {
        let mut copy = buf.clone();
        copy[place..place + 4].copy_from_slice(&value.to_le_bytes());
        open_err(copy)
    };
    assert_eq!(broken(0, 1), IndexError::FileMagic { file: FileKind::IvfRq, magic: 1 });
    assert_eq!(broken(48, 3), IndexError::RqNumBits { code: 3 });
    assert_eq!(broken(60, 6), IndexError::RqFormatFlags { flags: 4 });
    assert_eq!(broken(44, 2), IndexError::CodeSize { len: 2, expected: 1 });
    assert_eq!(broken(20, 0), IndexError::FileFlagsMissing { file: FileKind::IvfRq });
    assert_eq!(broken(20, 5), IndexError::FileFlags { file: FileKind::IvfRq, flags: 4 });
    assert!(matches!(
        broken(28, u32::MAX),
        IndexError::NegativeTotal { offset } if offset < 0
    ));
}

#[test]
fn lists_of_codes_are_read_as_they_were_written() {
    let index = tiny_ivfrq_index();
    let buf = written(&index);
    let reader = load(&buf).unwrap();
    assert_eq!(reader.total_vectors, 2);
    assert_eq!(reader.rotation_seed, 7);
    assert_eq!(reader.rotation_rounds, 4);
    for l in 0..2 {
        let place = reader.list_place(l).unwrap().unwrap();
        let list = reader.read_inverted_list(l, at(&buf, place)).unwrap();
        assert_eq!(list.list_id, l);
        assert_eq!(list.ids, index.ids[l]);
        assert_eq!(list.codes, index.codes[l]);
        assert_eq!(list.factors, index.factors[l]);
        let mut other = at(&buf, place).to_vec();
        other[8] += 1;
        assert_eq!(
            reader.read_inverted_list(l, &other).map(|_| ()),
            Err(IndexError::IdBytesMismatch { file: FileKind::IvfRq })
        );
        let short = reader.read_inverted_list(l, &at(&buf, place)[..1]);
        assert_eq!(
            short.map(|_| ()).unwrap_err().kind(),
            ErrorKind::UnexpectedEof
        );
    }
}

#[test]
fn factors_survive_their_bytes() {
    let factors = vec![
        RQCodeFactors {
            residual_norm_sqr: 1.5f32.to_bits(),
            vector_norm_sqr: 2.5f32.to_bits(),
            dp_multiplier: (-0.25f32).to_bits(),
        },
        RQCodeFactors {
            residual_norm_sqr: 0,
            vector_norm_sqr: 1,
            dp_multiplier: u32::MAX,
        },
    ];
    let mut out = Vec::new();
    write_factors(&mut out, &factors);
    assert_eq!(out.len(), 24);
    assert_eq!(&out[0..4], &1.5f32.to_le_bytes());
    assert_eq!(bytes_to_factors(&out).unwrap(), factors);
    assert_eq!(
        bytes_to_factors(&out[..23]),
        Err(IndexError::FactorsUnaligned)
    );
}

#[test]
fn rows_whose_bound_is_too_far_are_not_estimated() {
    let data: Vec<f32> = (0..32).flat_map(|i| [i as f32; 8]).collect();
    let ids: Vec<i64> = (0..32).collect();
    let index = built(&data, &ids, 8, 1);
    let exact = |_: usize, l: usize, i: usize| {
        let id = index.ids[l][i] as usize;
        squared(&data[0..8], &data[id * 8..(id + 1) * 8]).to_bits()
    };
    let lower = |q: usize, l: usize, i: usize| (f32::from_bits(exact(q, l, i)) * 0.5).to_bits();
    let all: Option<&HashSet<i64>> = None;
    let (labels, dists) = index.search_with_filter(&vec![vec![0]], 3, all, &lower, &exact);
    assert_eq!(labels, vec![0, 1, 2]);
    assert_eq!(floats(&dists), vec![0.0, 8.0, 32.0]);
    assert_eq!(index.search(&vec![vec![0]], 3, &lower, &exact), (labels, dists));
}

#[test]
fn indexes_of_one_bit_codes_that_do_not_fit_are_not_written() {
    let refused = |index: &IVFRQIndex| {
        let mut buf = Vec::new();
        let err = write_ivfrq_index(index, &mut buf).unwrap_err();
        assert!(buf.is_empty());
        err
    };
    let mut index = tiny_ivfrq_index();
    let l = (0..2).find(|&l| !index.factors[l].is_empty()).unwrap();
    index.factors[l].clear();
    assert_eq!(
        refused(&index),
        IndexError::ListFactorCount {
            list_id: l,
            len: 0,
            expected: 1
        }
    );
    let mut index = tiny_ivfrq_index();
    index.codes.pop();
    assert_eq!(refused(&index), IndexError::ListStorage { file: FileKind::IvfRq });
}

#[test]
fn ivfrq_parallel_add_matches_incremental_serial_add() {
    let d = 65;
    let nlist = 8;
    let n = 2_048;
    let data: Vec<f32> = (0..n)
        .flat_map(|row| {
            (0..d).map(move |dimension| {
                (row % nlist) as f32 * 100.0 + row as f32 * 0.003 + dimension as f32 * 0.07
            })
        })
        .collect();
    let ids: Vec<i64> = (10_000..10_000 + n as i64).collect();
    let mut parallel = trained(&data, n, d, nlist);
    let mut serial = trained(&data, n, d, nlist);
    let parallel_centroids = floats(&parallel.quantizer_centroids);
    let serial_centroids = floats(&serial.quantizer_centroids);
    fill(&mut parallel, &data, &ids, &parallel_centroids);
    for (data_chunk, id_chunk) in data.chunks_exact(512 * d).zip(ids.chunks_exact(512)) {
        fill(&mut serial, data_chunk, id_chunk, &serial_centroids);
    }
    assert_eq!(parallel.total_vectors(), n);
    assert_eq!(parallel.ids, serial.ids);
    assert_eq!(parallel.codes, serial.codes);
    assert_eq!(parallel.factors, serial.factors);
}

#[test]
fn rows_are_appended_to_their_lists_in_order() {
    let factor = |value: u32| RQCodeFactors {
        residual_norm_sqr: value,
        vector_norm_sqr: value,
        dp_multiplier: value,
    };
    let mut index = IVFRQIndex::with_options(9, 2, MetricType::L2, 7, 4);
    index.append_encoded_rows(
        &vec![1, 1, 2, 2, 3, 3],
        &vec![factor(1), factor(2), factor(3)],
        &vec![10, 20, 30],
        &vec![1, 0, 1],
    );
    assert_eq!(index.ids, vec![vec![20], vec![10, 30]]);
    assert_eq!(index.codes, vec![vec![2, 2], vec![1, 1, 3, 3]]);
    assert_eq!(
        index.factors,
        vec![vec![factor(2)], vec![factor(1), factor(3)]]
    );
}

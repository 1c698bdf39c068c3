use paimon_vindex_core::distance::MetricType;
use paimon_vindex_core::error::{ErrorKind, IndexError};
use paimon_vindex_core::graph_codec::{decode_graph, encode_graph};
use paimon_vindex_core::graph_reorder::{old_to_new_order, reorder_graph};
use paimon_vindex_core::hnsw::{HnswBuildParams, HnswGraph};
use paimon_vindex_core::hnsw_layer::ScoredNode;

fn bits(values: &[f32]) -> Vec<u32> {
    values.iter().map(|value| value.to_bits()).collect()
}

fn squared(a: &[f32], b: &[f32]) -> f32 {
    a.iter().zip(b).map(|(x, y)| (x - y) * (x - y)).sum()
}

fn row(data: &[f32], d: usize, i: usize) -> &[f32] {
    &data[i * d..(i + 1) * d]
}

fn build(data: &[f32], n: usize, d: usize, params: HnswBuildParams) -> HnswGraph {
    HnswGraph::build(&bits(data), n, d, MetricType::L2, params, |a, b| {
        squared(row(data, d, a), row(data, d, b)).to_bits()
    })
    .unwrap()
}

fn search(graph: &HnswGraph, data: &[f32], d: usize, query: &[f32], k: usize, ef: usize) -> Vec<(usize, f32)> {
    graph
        .search(k, ef, |node| squared(query, row(data, d, node)).to_bits())
        .into_iter()
        .map(|(node, dist)| (node, f32::from_bits(dist)))
        .collect()
}

fn exact_topk(data: &[f32], n: usize, d: usize, query: &[f32], k: usize) -> Vec<usize> {
    let mut distances: Vec<(f32, usize)> = (0..n)
        .map(|i| (squared(query, row(data, d, i)), i))
        .collect();
    distances.sort_by(|a, b| a.0.partial_cmp(&b.0).unwrap());
    distances[..k].iter().map(|&(_, id)| id).collect()
}

fn generate_clustered_data(n: usize, d: usize, num_clusters: usize) -> Vec<f32> {
    let mut data = vec![0.0f32; n * d];
    for i in 0..n {
        let cluster = i % num_clusters;
        for j in 0..d {
            data[i * d + j] = cluster as f32 * 20.0 + j as f32 * 0.01 + i as f32 * 0.0001;
        }
    }
    data
}

#[test]
fn test_hnsw_recalls_query_vector_on_single_partition() {
    let d = 4;
    let n = 128;
    let data: Vec<f32> = (0..n)
        .flat_map(|i| [i as f32 * 0.01, 1.0, 2.0, 3.0])
        .collect();
    let params = HnswBuildParams {
        m: 8,
        ef_construction: 32,
        max_level: 6,
    };

    let graph = build(&data, n, d, params);
    let query_id = 17;
    let results = search(&graph, &data, d, row(&data, d, query_id), 5, 32);

    assert_eq!(results[0].0, query_id);
    assert_eq!(results[0].1, 0.0);
}

#[test]
fn test_hnsw_empty_graph_returns_no_results() {
    let graph = build(&[], 0, 4, HnswBuildParams::default());

    assert!(search(&graph, &[], 4, &[0.0, 0.0, 0.0, 0.0], 10, 20).is_empty());
    assert!(graph.is_empty());
    assert_eq!(graph.len(), 0);
    assert_eq!(graph.max_degree(), 0);
}

#[test]
fn test_hnsw_build_rejects_short_vector_input() {
    let err = match HnswGraph::build(
        &bits(&[0.0, 1.0, 2.0]),
        2,
        2,
        MetricType::L2,
        HnswBuildParams::default(),
        |_, _| 0,
    ) {
        Ok(_) => panic!("three values are too few for two vectors of two"),
        Err(err) => err,
    };

    assert_eq!(err.kind(), ErrorKind::InvalidInput);
    assert!(err.message().contains("shorter than n*d"));
}

#[test]
fn test_hnsw_respects_neighbor_degree_bound() {
    let d = 8;
    let n = 512;
    let data = generate_clustered_data(n, d, 16);
    let params = HnswBuildParams {
        m: 12,
        ef_construction: 100,
        max_level: 6,
    };

    let graph = build(&data, n, d, params);

    assert_eq!(graph.len(), n);
    assert!(graph.max_degree() <= params.m * 2);
}

#[test]
fn test_hnsw_large_partition_recall_tracks_exact_search() {
    let d = 16;
    let n = 4096;
    let nq = 32;
    let k = 10;
    let data = generate_clustered_data(n, d, 32);
    let params = HnswBuildParams {
        m: 16,
        ef_construction: 200,
        max_level: 7,
    };

    let graph = build(&data, n, d, params);
    let mut hits = 0usize;
    for qi in 0..nq {
        let query = row(&data, d, qi);
        let expected = exact_topk(&data, n, d, query, k);
        let actual = search(&graph, &data, d, query, k, 200);
        hits += actual
            .iter()
            .filter(|(id, _)| expected.contains(id))
            .count();
    }

    let recall = hits as f32 / (nq * k) as f32;
    assert!(recall >= 0.95, "recall={}", recall);
}

#[test]
fn test_hnsw_neighbor_selection_backfills_after_diversification() {
    let d = 1;
    let data = vec![0.0, 1.0, 2.0, 3.0];
    let graph = build(
        &data,
        4,
        d,
        HnswBuildParams {
            m: 2,
            ef_construction: 4,
            max_level: 1,
        },
    );
    let candidates = vec![
        ScoredNode {
            id: 1,
            dist: 1.0f32.to_bits(),
        },
        ScoredNode {
            id: 2,
            dist: 2.0f32.to_bits(),
        },
        ScoredNode {
            id: 3,
            dist: 3.0f32.to_bits(),
        },
    ];

    let selected = graph.select_neighbors(&candidates, 3, |a, b| {
        squared(row(&data, d, a), row(&data, d, b)).to_bits()
    });

    assert_eq!(selected.len(), 3);
}

#[test]
fn test_hnsw_greedy_search_chooses_best_improving_neighbor() {
    let vectors = vec![0.0f32, 5.0, 2.0];
    let graph = HnswGraph::from_parts(
        bits(&vectors),
        3,
        1,
        MetricType::L2,
        vec![0, 0, 0],
        vec![vec![vec![1, 2]], vec![vec![]], vec![vec![]]],
        0,
        0,
        HnswBuildParams::default(),
    )
    .unwrap();

    let (next, dist) = graph.greedy_search_query(0, 4.0f32.to_bits(), 0, |node| {
        squared(&[2.0], row(&vectors, 1, node)).to_bits()
    });

    assert_eq!(next, 2);
    assert_eq!(f32::from_bits(dist), 0.0);
}

fn parts(
    vectors: &[f32],
    n: usize,
    levels: Vec<usize>,
    neighbors: Vec<Vec<Vec<usize>>>,
    entry_point: usize,
    max_observed_level: usize,
) -> IndexError {
    match HnswGraph::from_parts(
        bits(vectors),
        n,
        1,
        MetricType::L2,
        levels,
        neighbors,
        entry_point,
        max_observed_level,
        HnswBuildParams::default(),
    ) {
        Ok(_) => panic!("these parts make no graph"),
        Err(err) => err,
    }
}

#[test]
fn a_graph_of_one_node_reads_back_whatever_its_degree() {
    let params = HnswBuildParams {
        m: usize::MAX,
        ..HnswBuildParams::default()
    };
    for values in [vec![], vec![2.5f32]] {
        let n = values.len();
        let graph = HnswGraph::build(&bits(&values), n, 1, MetricType::L2, params, |_, _| 0)
            .ok()
            .unwrap();
        let bytes = encode_graph(Some(&graph)).unwrap();
        let read = decode_graph(&bytes, bits(&values), n, 1, MetricType::L2, params)
            .ok()
            .unwrap()
            .unwrap();
        assert_eq!(read.len(), n);
        assert_eq!(read.levels(), graph.levels());
        assert_eq!(read.neighbors(), graph.neighbors());
        assert_eq!(read.vectors(), graph.vectors());
        assert_eq!(read.entry_point(), 0);
        assert_eq!(read.max_observed_level(), graph.max_observed_level());
    }
}

#[test]
fn parts_that_do_not_fit_make_no_graph() {
    assert_eq!(
        parts(&[0.0], 2, vec![0, 0], vec![vec![vec![]], vec![vec![]]], 0, 0),
        IndexError::GraphVectorLength { len: 1, expected: 2 }
    );
    assert_eq!(
        parts(&[0.0, 1.0], 2, vec![0], vec![vec![vec![]], vec![vec![]]], 0, 0),
        IndexError::GraphLevelCount
    );
    assert_eq!(
        parts(&[0.0, 1.0], 2, vec![0, 0], vec![vec![vec![]], vec![vec![]]], 2, 0),
        IndexError::GraphEntryPoint {
            entry_point: 2,
            count: 2
        }
    );
    assert_eq!(
        parts(&[0.0, 1.0], 2, vec![0, 0], vec![vec![vec![]], vec![vec![]]], 0, 1),
        IndexError::GraphMaxLevel {
            stated: 1,
            observed: 0
        }
    );
    assert_eq!(
        parts(
            &[0.0, 1.0],
            2,
            vec![0, 1],
            vec![vec![vec![]], vec![vec![], vec![]]],
            0,
            1
        ),
        IndexError::GraphEntryLevel
    );
    let edge = parts(&[0.0, 1.0], 2, vec![0, 0], vec![vec![vec![2]], vec![vec![]]], 0, 0);
    assert_eq!(
        edge,
        IndexError::GraphEdge {
            node: 0,
            neighbor: 2,
            level: 0
        }
    );
    assert_eq!(edge.kind(), ErrorKind::InvalidData);
    assert_eq!(
        parts(&[0.0, 1.0], 2, vec![0, 0], vec![vec![], vec![vec![]]], 0, 0),
        IndexError::GraphLevelAdjacency { node: 0 }
    );
    assert_eq!(
        parts(&[0.0], usize::MAX, vec![0], vec![vec![vec![]]], 0, 0),
        IndexError::GraphVectorLength {
            len: 1,
            expected: usize::MAX
        }
    );
    assert_eq!(
        HnswGraph::build(&[], usize::MAX / 2, 4, MetricType::L2, HnswBuildParams::default(), |_, _| 0)
            .map(|_| ())
            .unwrap_err(),
        IndexError::GraphSizeOverflow
    );
}

#[test]
fn more_neighbours_than_asked_for_are_never_selected() {
    let data = vec![0.0, 1.0, 2.0, 3.0];
    let graph = build(&data, 4, 1, HnswBuildParams::default());
    let candidates: Vec<ScoredNode> = (1..4)
        .map(|id| ScoredNode {
            id,
            dist: (id as f32 * id as f32).to_bits(),
        })
        .collect();
    let selected = graph.select_neighbors(&candidates, 2, |a, b| {
        squared(row(&data, 1, a), row(&data, 1, b)).to_bits()
    });
    assert_eq!(selected.iter().map(|node| node.id).collect::<Vec<_>>(), vec![1, 2]);
}

#[test]
fn a_graph_survives_its_bytes() {
    let d = 4;
    let n = 64;
    let data = generate_clustered_data(n, d, 8);
    let params = HnswBuildParams {
        m: 4,
        ef_construction: 16,
        max_level: 4,
    };
    let graph = build(&data, n, d, params);
    let bytes = encode_graph(Some(&graph)).unwrap();
    let read = decode_graph(&bytes, bits(&data), n, d, MetricType::L2, params)
        .unwrap()
        .unwrap();
    assert_eq!(read.levels(), graph.levels());
    assert_eq!(read.entry_point(), graph.entry_point());
    assert_eq!(read.max_observed_level(), graph.max_observed_level());
    for node in 0..n {
        for (level, list) in graph.neighbors()[node].iter().enumerate() {
            let mut sorted = list.clone();
            sorted.sort();
            assert_eq!(read.neighbors()[node][level], sorted);
        }
    }
    assert!(encode_graph(None).unwrap().is_empty());
}

#[test]
fn graphs_above_their_limits_are_not_read() {
    let params = HnswBuildParams {
        m: 2,
        ef_construction: 8,
        max_level: 3,
    };
    let graph = HnswGraph::from_parts(
        bits(&[0.0]),
        1,
        1,
        MetricType::L2,
        vec![0],
        vec![vec![vec![]]],
        0,
        0,
        params,
    )
    .unwrap();
    let bytes = encode_graph(Some(&graph)).unwrap();
    let n = bytes.len();

    let mut tall = bytes.clone();
    tall[n - 2] = params.max_level as u8 + 1;
    let err = decode_graph(&tall, bits(&[0.0]), 1, 1, MetricType::L2, params)
        .map(|_| ())
        .unwrap_err();
    assert_eq!(err.kind(), ErrorKind::InvalidData);
    assert!(err.message().contains("level"));

    let mut wide = bytes.clone();
    wide[n - 1] = (params.m * 2) as u8 + 1;
    let err = decode_graph(&wide, bits(&[0.0]), 1, 1, MetricType::L2, params)
        .map(|_| ())
        .unwrap_err();
    assert_eq!(err.kind(), ErrorKind::InvalidData);
    assert!(err.message().contains("degree"));

    let err = decode_graph(&bytes[..n - 1], bits(&[0.0]), 1, 1, MetricType::L2, params)
        .map(|_| ())
        .unwrap_err();
    assert_eq!(err.kind(), ErrorKind::InvalidData);

    let mut long = bytes.clone();
    long.push(0);
    assert_eq!(
        decode_graph(&long, bits(&[0.0]), 1, 1, MetricType::L2, params)
            .map(|_| ())
            .unwrap_err(),
        IndexError::GraphTrailingBytes
    );
}

#[test]
fn renumbering_twice_gives_the_graph_back() {
    let d = 2;
    let n = 32;
    let data = generate_clustered_data(n, d, 4);
    let params = HnswBuildParams {
        m: 4,
        ef_construction: 16,
        max_level: 4,
    };
    let graph = build(&data, n, d, params);
    let order: Vec<usize> = (0..n).map(|i| (i * 5 + 3) % n).collect();
    let back = old_to_new_order(&order);
    for i in 0..n {
        assert_eq!(back[order[i]], i);
    }
    let moved: Vec<f32> = order
        .iter()
        .flat_map(|&i| row(&data, d, i).to_vec())
        .collect();
    let turned = reorder_graph(&graph, &order, bits(&moved), d, MetricType::L2, params).unwrap();
    let again = reorder_graph(&turned, &back, bits(&data), d, MetricType::L2, params).unwrap();
    assert_eq!(again.levels(), graph.levels());
    assert_eq!(again.neighbors(), graph.neighbors());
    assert_eq!(again.entry_point(), graph.entry_point());
}

#[test]
fn broken_graph_bytes_have_their_errors() {
    let params = HnswBuildParams {
        m: 2,
        ef_construction: 8,
        max_level: 3,
    };
    let graph = HnswGraph::from_parts(
        bits(&[0.0, 1.0]),
        2,
        1,
        MetricType::L2,
        vec![0, 0],
        vec![vec![vec![1]], vec![vec![0]]],
        0,
        0,
        params,
    )
    .unwrap();
    let bytes = encode_graph(Some(&graph)).unwrap();
    let read = |bytes: &[u8]| {
        decode_graph(bytes, bits(&[0.0, 1.0]), 2, 1, MetricType::L2, params)
            .map(|_| ())
            .unwrap_err()
    };
    let broken = |place: usize, value: u32| {
        let mut copy = bytes.clone();
        copy[place..place + 4].copy_from_slice(&value.to_le_bytes());
        read(&copy)
    };
    assert_eq!(read(&bytes[..3]), IndexError::GraphTruncated);
    assert_eq!(broken(0, 7), IndexError::GraphMagic { magic: 7 });
    assert_eq!(broken(4, 7), IndexError::GraphVersion { version: 7 });
    assert_eq!(broken(8, 5), IndexError::GraphUnknownFlags { flags: 4 });
    assert_eq!(broken(8, 0), IndexError::GraphMissingFlags);
    let with = |place: usize, number: &[u8]| {
        let mut copy = bytes.clone();
        copy.splice(place..place + 1, number.iter().copied());
        read(&copy)
    };
    assert_eq!(
        with(12, &[3]),
        IndexError::GraphCount {
            stored: 3,
            count: 2
        }
    );
    assert_eq!(
        with(12, &[0x80, 0x80, 0x80, 0x80, 0x10]),
        IndexError::GraphNumberTooLarge { number: 1 << 32 }
    );
    assert_eq!(
        with(15, &[4]),
        IndexError::GraphNodeLevel {
            node: 0,
            level: 4,
            max_level: 3
        }
    );
    assert_eq!(
        with(17, &[5]),
        IndexError::GraphDegree {
            node: 0,
            degree: 5,
            level: 0,
            max_degree: 4
        }
    );
    assert_eq!(
        with(18, &[0x80, 0x80, 0x80, 0x80, 0x10]).kind(),
        ErrorKind::InvalidData
    );
}

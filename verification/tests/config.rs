use paimon_vindex_core::config_options::{ConfigError, OptionName};
use paimon_vindex_core::distance::MetricType;
use paimon_vindex_core::error::{ErrorKind, Field, IndexError};
use paimon_vindex_core::hnsw::HnswBuildParams;
use paimon_vindex_core::index::{
    validate_rows, validate_vectors, IndexType, VectorIndexConfig, VectorIndexReader,
    VectorIndexWriter, VectorSearchParams,
};

fn options(values: &[(&str, &str)]) -> Vec<(String, String)> {
    values
        .iter()
        .map(|(key, value)| ((*key).to_string(), (*value).to_string()))
        .collect()
}

#[test]
fn config_from_options_parses_all_index_types() {
    assert_eq!(
        VectorIndexConfig::from_options(&options(&[
            ("index.type", "ivf_flat"),
            ("dimension", "8"),
            ("nlist", "4"),
            ("metric", "l2"),
        ]))
        .unwrap()
        .index_type(),
        IndexType::IvfFlat
    );

    match VectorIndexConfig::from_options(&options(&[
        ("index.type", "ivf_pq"),
        ("dimension", "16"),
        ("nlist", "4"),
        ("pq.m", "4"),
        ("use-opq", "true"),
    ]))
    .unwrap()
    {
        VectorIndexConfig::IvfPq { m, use_opq, .. } => {
            assert_eq!(m, 4);
            assert!(use_opq);
        }
        _ => panic!("expected IVF PQ config"),
    }

    match VectorIndexConfig::from_options(&options(&[
        ("index.type", "ivf_hnsw_sq"),
        ("dimension", "8"),
        ("nlist", "4"),
        ("hnsw.m", "12"),
        ("hnsw.ef-construction", "64"),
        ("hnsw.max-level", "5"),
    ]))
    .unwrap()
    {
        VectorIndexConfig::IvfHnswSq { hnsw, .. } => {
            assert_eq!(hnsw.m, 12);
            assert_eq!(hnsw.ef_construction, 64);
            assert_eq!(hnsw.max_level, 5);
        }
        _ => panic!("expected IVF HNSW SQ config"),
    }
}

#[test]
fn config_from_options_rejects_unknown_options() {
    let err = VectorIndexConfig::from_options(&options(&[
        ("index.type", "ivf_flat"),
        ("dimension", "8"),
        ("nlist", "4"),
        ("unused", "value"),
    ]))
    .unwrap_err();

    assert!(err.message().contains("unknown vector index option"));
}

#[test]
fn config_from_options_rejects_alias_keys_and_values() {
    let err = VectorIndexConfig::from_options(&options(&[
        ("type", "ivf_flat"),
        ("dimension", "8"),
        ("nlist", "4"),
    ]))
    .unwrap_err();
    assert!(err
        .message()
        .contains("missing required option 'index.type'"));

    let err = VectorIndexConfig::from_options(&options(&[
        ("index.type", "ivf-flat"),
        ("dimension", "8"),
        ("nlist", "4"),
    ]))
    .unwrap_err();
    assert!(err.message().contains("unknown index.type"));

    let err = VectorIndexConfig::from_options(&options(&[
        ("index.type", "IVF_FLAT"),
        ("dimension", "8"),
        ("nlist", "4"),
    ]))
    .unwrap_err();
    assert!(err.message().contains("unknown index.type"));

    let err = VectorIndexConfig::from_options(&options(&[
        ("index.type", "ivf_flat"),
        ("dimension", "8"),
        ("nlist", "4"),
        ("metric", "ip"),
    ]))
    .unwrap_err();
    assert!(err.message().contains("unknown metric"));
}

#[test]
fn unified_reader_rejects_unknown_magic() {
    let err = match VectorIndexReader::open(&vec![0xFF; 8]) {
        Ok(_) => panic!("unknown magic should be rejected"),
        Err(err) => err,
    };
    assert!(err.message().contains("unknown vector index magic"));
    assert_eq!(err.kind(), ErrorKind::InvalidData);
    assert_eq!(
        err,
        IndexError::UnknownIndexMagic {
            magic: 0xFFFF_FFFF
        }
    );
}

#[test]
fn unified_config_rejects_invalid_pq_m() {
    let err = match VectorIndexWriter::new(VectorIndexConfig::IvfPq {
        dimension: 10,
        nlist: 4,
        m: 3,
        metric: MetricType::L2,
        use_opq: false,
    }) {
        Ok(_) => panic!("invalid PQ config should be rejected"),
        Err(err) => err,
    };
    assert!(err.message().contains("must be divisible"));
}

#[test]
fn test_metric_type_as_str() {
    assert_eq!(MetricType::L2.as_str(), "l2");
    assert_eq!(MetricType::InnerProduct.as_str(), "inner_product");
    assert_eq!(MetricType::Cosine.as_str(), "cosine");
}

#[test]
fn codes_lead_to_metrics_and_kinds_and_back() {
    for code in 0..3 {
        assert_eq!(MetricType::from_code(code).unwrap().code(), code);
    }
    assert_eq!(MetricType::from_code(3), None);
    assert_eq!(IndexType::from_code(0).unwrap().as_str(), "ivf_flat");
    assert_eq!(IndexType::from_code(1).unwrap().as_str(), "ivf_pq");
    assert_eq!(IndexType::from_code(2).unwrap().as_str(), "ivf_hnsw_flat");
    assert_eq!(IndexType::from_code(3).unwrap().as_str(), "ivf_hnsw_sq");
    assert_eq!(IndexType::from_code(4), None);
}

#[test]
fn white_space_around_keys_and_values_is_ignored() {
    let config = VectorIndexConfig::from_options(&options(&[
        (" index.type\t", " ivf_hnsw_flat "),
        ("\u{3000}dimension", "\n+8"),
        ("nlist ", "004"),
        ("metric", "cosine "),
    ]))
    .unwrap();
    assert_eq!(
        config,
        VectorIndexConfig::IvfHnswFlat {
            dimension: 8,
            nlist: 4,
            metric: MetricType::Cosine,
            hnsw: HnswBuildParams::default(),
        }
    );
    assert_eq!(config.dimension(), 8);
    assert_eq!(config.nlist(), 4);
}

#[test]
fn every_fault_of_options_has_its_error() {
    let flat = [("index.type", "ivf_flat"), ("dimension", "8"), ("nlist", "4")];
    let with = |more: &[(&str, &str)]| {
        let mut all = flat.to_vec();
        all.extend_from_slice(more);
        VectorIndexConfig::from_options(&options(&all))
    };
    assert_eq!(with(&[("  ", "x")]).unwrap_err(), ConfigError::EmptyKey);
    assert_eq!(
        with(&[(" nlist", "x")]).unwrap_err(),
        ConfigError::DuplicateKey {
            key: "nlist".to_string()
        }
    );
    let err = with(&[("zeta", "1"), ("alpha", "2"), ("hnsw.m", "3")]).unwrap_err();
    assert_eq!(
        err.message(),
        "unknown vector index option(s): alpha, hnsw.m, zeta"
    );
    let missing = VectorIndexConfig::from_options(&options(&[
        ("index.type", "ivf_pq"),
        ("dimension", "8"),
        ("nlist", "4"),
    ]))
    .unwrap_err();
    assert_eq!(
        missing,
        ConfigError::Missing {
            option: OptionName::PqM
        }
    );
    let not_bool = VectorIndexConfig::from_options(&options(&[
        ("index.type", "ivf_pq"),
        ("dimension", "8"),
        ("nlist", "4"),
        ("pq.m", "4"),
        ("use-opq", "yes"),
    ]))
    .unwrap_err();
    assert_eq!(
        not_bool.message(),
        "option 'use-opq' must be true or false"
    );
    let not_number = |value: &str| {
        VectorIndexConfig::from_options(&options(&[
            ("index.type", "ivf_flat"),
            ("dimension", value),
            ("nlist", "4"),
        ]))
        .unwrap_err()
    };
    for value in ["", "+", "-1", "8.0", "1_000", "99999999999999999999"] {
        assert_eq!(
            not_number(value).message(),
            "option 'dimension' must be a positive integer"
        );
    }
    assert_eq!(
        not_number("0"),
        ConfigError::Invalid {
            error: IndexError::FieldZero {
                field: Field::Dimension
            }
        }
    );
    // The metric is looked at before the numbers are.
    let metric_first = VectorIndexConfig::from_options(&options(&[
        ("index.type", "ivf_flat"),
        ("dimension", "x"),
        ("nlist", "4"),
        ("metric", "ip"),
    ]))
    .unwrap_err();
    assert_eq!(
        metric_first.message(),
        "unknown metric 'ip'; expected l2, inner_product, or cosine"
    );
}

#[test]
fn settings_without_a_size_are_refused() {
    let hnsw = HnswBuildParams {
        m: 0,
        ef_construction: 1,
        max_level: 1,
    };
    let config = VectorIndexConfig::IvfHnswSq {
        dimension: 1,
        nlist: 1,
        metric: MetricType::L2,
        hnsw,
    };
    match VectorIndexWriter::new(config) {
        Err(err) => assert_eq!(
            err,
            IndexError::FieldZero {
                field: Field::HnswM
            }
        ),
        Ok(_) => panic!("graphs without neighbours should be rejected"),
    }
    match VectorIndexWriter::new(VectorIndexConfig::IvfPq {
        dimension: 8,
        nlist: 4,
        m: 4,
        metric: MetricType::L2,
        use_opq: false,
    }) {
        Err(err) => {
            assert_eq!(err, IndexError::NoSuchStorage);
            assert_eq!(err.kind(), ErrorKind::Unsupported);
        }
        Ok(_) => panic!("there is no storage for product quantization"),
    }
}

#[test]
fn writers_are_made_by_their_settings() {
    let flat = VectorIndexWriter::new(VectorIndexConfig::IvfFlat {
        dimension: 8,
        nlist: 4,
        metric: MetricType::L2,
    })
    .unwrap_or_else(|_| panic!("settings are valid"));
    assert_eq!(flat.index_type(), IndexType::IvfFlat);
    assert_eq!(flat.dimension(), 8);
    let hnsw = VectorIndexWriter::new(VectorIndexConfig::IvfHnswSq {
        dimension: 6,
        nlist: 2,
        metric: MetricType::Cosine,
        hnsw: HnswBuildParams::default(),
    })
    .unwrap_or_else(|_| panic!("settings are valid"));
    assert_eq!(hnsw.index_type(), IndexType::IvfHnswSq);
    assert_eq!(hnsw.dimension(), 6);
}

#[test]
fn rows_have_to_be_complete() {
    assert_eq!(validate_vectors(&[0; 6], 3, 2), Ok(()));
    assert_eq!(
        validate_vectors(&[0; 6], 0, 2),
        Err(IndexError::FieldZero {
            field: Field::VectorCount
        })
    );
    assert_eq!(
        validate_vectors(&[0; 6], 2, 2),
        Err(IndexError::DataLength {
            len: 6,
            expected: 4
        })
    );
    assert_eq!(
        validate_vectors(&[0; 6], usize::MAX, 2),
        Err(IndexError::DataSizeOverflow)
    );
    assert_eq!(
        validate_rows(&[1, 2], &[0; 6], 3, 2),
        Err(IndexError::IdCount {
            len: 2,
            expected: 3
        })
    );
    assert_eq!(validate_rows(&[1, 2, 3], &[0; 6], 3, 2), Ok(()));
}

#[test]
fn graph_searches_are_at_least_as_wide_as_their_results() {
    assert_eq!(VectorSearchParams::new(5, 1).hnsw_ef_search(), 32);
    assert_eq!(VectorSearchParams::new(50, 1).hnsw_ef_search(), 50);
    assert_eq!(
        VectorSearchParams::with_ef_search(50, 1, 7).hnsw_ef_search(),
        7
    );
}

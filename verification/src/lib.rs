pub mod autotune;
pub mod centroid_law;
pub mod cluster_assign;
pub mod cluster_split;
pub mod cluster_update;
pub mod clustering_law;
pub mod coarse;
pub mod collect;
pub mod config_options;
pub mod coreset;
pub mod distance;
pub mod error;
pub mod file_law;
pub mod float_bits;
pub mod float_law;
pub mod graph_build_law;
pub mod graph_codec;
pub mod graph_law;
pub mod graph_lists;
pub mod graph_reorder;
pub mod graph_search_law;
pub mod hierarchical;
pub mod hnsw;
pub mod hnsw_build;
pub mod hnsw_layer;
pub mod hnsw_link;
pub mod hnsw_search;
pub mod id_table;
pub mod index;
pub mod index_io_util;
pub mod index_law;
pub mod index_train;
pub mod index_write;
pub mod ivf_lists;
pub mod ivf_search;
pub mod ivfflat;
pub mod ivfflat_io;
pub mod ivfhnswflat;
pub mod ivfhnswflat_io;
pub mod ivfhnswsq;
pub mod ivfhnswsq_io;
pub mod ivfhnswsq_law;
pub mod ivfhnswsq_read;
pub mod ivfrq;
pub mod ivfrq_add;
pub mod ivfrq_io;
pub mod kmeans;
pub mod list_graphs;
pub mod list_table;
pub mod little_endian;
pub mod logging;
pub mod numerals;
pub mod options_law;
pub mod pq;
pub mod pq_scan;
pub mod pq_table;
pub mod pq_train;
pub mod quantizer_law;
pub mod random;
pub mod range;
pub mod range_law;
pub mod range_result;
pub mod read_options;
pub mod read_plan;
pub mod reading_law;
pub mod row_id_filter;
pub mod row_law;
pub mod scan_law;
pub mod search_plan;
pub mod seeding;
pub mod sort;
pub mod splitting_law;
pub mod sq;
pub mod text;
pub mod topk;
pub mod training;
pub mod training_law;
pub mod tuning_law;
pub mod unfiltered;
pub mod varint;
pub mod vector_math;
pub mod widening;
pub mod wire;
pub mod writer_law;

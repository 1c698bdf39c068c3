# paimon_vindex_core

The core of a vector index, written in Rust and verified with Verus: what is kept of vectors in
inverted lists, how the lists are searched, and how an index is stored in a file.

Vectors hold single-precision values. The library never computes with them: it carries their bit
patterns, compares them in the order of the values they stand for, and takes the arithmetic as
functions from its caller. Every executable function states in its contract what it returns, over
mathematical models of the data.

## Layout

- `src/` is the library.
  - Clustering: `kmeans`, `random`, `vector_math`, `seeding`, `cluster_assign`, `cluster_update`,
    `training`, `cluster_split`, `hierarchical`, `training_law`, `splitting_law`, `coreset`,
    `coarse`.
  - Graphs: `hnsw`, `hnsw_build`, `hnsw_layer`, `hnsw_link`, `hnsw_search`, `graph_reorder`,
    `graph_codec`, `list_graphs`.
  - Quantizers: `pq`, `pq_train`, `pq_table`, `pq_scan`, `sq`.
  - Indexes and their files: `ivfflat`, `ivfhnswflat`, `ivfhnswsq`, `ivfrq`, each with its `_io`
    module, `ivfhnswsq_read`, `ivfhnswsq_law`, `ivfrq_add` and `unfiltered`, and the parts that they
    share: `ivf_lists`, `search_plan`, `ivf_search`, `id_table`, `graph_lists`, `list_table`,
    `read_plan`, `varint`, `little_endian`, `wire`, `index_io_util`.
  - One interface for all of them: `index`, `index_train`, `index_write`, `index_law`, `writer_law`,
    `config_options`, `autotune`, `read_options`.
  - Range search: `range`, `range_result`, `collect`.
  - Ground: `float_bits`, `widening`, `sort`, `text`, `topk`, `row_id_filter`, `distance`, `error`,
    `numerals`, `logging`.
- `tests/` runs the library, with the arithmetic of single precision handed in.
- `app/` is ordinary Rust around the library: the arithmetic, files, threads and logging.

## What is trusted

The generator of the `rand` crate (`src/random.rs`) and the compressed bitmaps of the `roaring` crate
(`src/row_id_filter.rs`) are called behind small wrappers. Their doc comments say what is believed of
the outside functions.

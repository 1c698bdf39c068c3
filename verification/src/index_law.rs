//! What is written reads back, whatever the kind of index.
use crate::error::IndexError;
use crate::graph_codec;
use crate::hnsw;
use crate::hnsw::{GraphModel, HnswBuildParams};
use crate::hnsw_build;
use crate::index;
use crate::index::{IndexType, VectorIndexMetadata, VectorIndexReader, VectorIndexWriter};
use crate::ivf_lists;
use crate::ivfflat_io;
use crate::ivfhnswflat_io;
use crate::ivfhnswsq;
use crate::ivfhnswsq_io;
use crate::ivfhnswsq_law;
use crate::list_graphs;
use crate::sq;
use crate::wire;
use vstd::prelude::*;

verus! {

/// What a file says of the index that a writer holds.
pub open spec fn metadata_of(writer: VectorIndexWriter) -> VectorIndexMetadata {
    match writer {
        VectorIndexWriter::IvfFlat(index) => VectorIndexMetadata {
            index_type: IndexType::IvfFlat,
            dimension: index@.d,
            nlist: index@.nlist,
            metric: index@.metric,
            total_vectors: ivf_lists::total_rows(index@.ids) as i64,
            pq_m: None,
            hnsw: None,
        },
        VectorIndexWriter::IvfHnswFlat(index) => VectorIndexMetadata {
            index_type: IndexType::IvfHnswFlat,
            dimension: index@.flat.d,
            nlist: index@.flat.nlist,
            metric: index@.flat.metric,
            total_vectors: ivf_lists::total_rows(index@.flat.ids) as i64,
            pq_m: None,
            hnsw: Some(index@.hnsw_params.spec_sanitized()),
        },
        VectorIndexWriter::IvfHnswSq(index) => VectorIndexMetadata {
            index_type: IndexType::IvfHnswSq,
            dimension: index@.d,
            nlist: index@.nlist,
            metric: index@.metric,
            total_vectors: ivf_lists::total_rows(index@.ids) as i64,
            pq_m: None,
            hnsw: Some(index@.hnsw_params.spec_sanitized()),
        },
    }
}

/// List `i` of what a writer holds reads back from its file.
pub open spec fn list_reads_back<D: Fn(usize, &Vec<u8>) -> Vec<u32>>(
    writer: VectorIndexWriter,
    decode: D,
    i: usize,
) -> bool {
    match writer {
        VectorIndexWriter::IvfFlat(index) => ivfflat_io::reads_back(index@, i),
        VectorIndexWriter::IvfHnswFlat(index) => ivfhnswflat_io::reads_back(index@, i),
        VectorIndexWriter::IvfHnswSq(index) => ivfhnswsq_law::reads_back(
            index@,
            sq::decoding(decode),
            i,
        ),
    }
}

/// A step of growth changes no parameters, so none are changed by all of them.
proof fn lemma_growth_keeps_params(steps: Seq<GraphModel>, pair: spec_fn(usize, usize) -> u32, n: int)
    requires
        0 <= n < steps.len(),
        forall|i: int| 0 <= i < n ==> #[trigger] hnsw_build::next_step(steps, i, pair),
    ensures
        steps[n].params == steps[0].params,
    decreases n,
{
    if n > 0 {
        lemma_growth_keeps_params(steps, pair, n - 1);
        assert(hnsw_build::next_step(steps, n - 1, pair));
        reveal(hnsw_build::inserted);
    }
}

proof fn lemma_grown_within_limits(
    start: GraphModel,
    g: GraphModel,
    n: nat,
    pair: spec_fn(usize, usize) -> u32,
    params: HnswBuildParams,
)
    requires
        hnsw_build::grown(start, g, n, pair),
        hnsw_build::growth_state(g),
        start.params == params,
        g.levels.len() > 1 ==> params.m * 2 <= usize::MAX,
    ensures
        graph_codec::within_limits(g, params),
{
    let steps = choose|steps: Seq<GraphModel>| #[trigger]
        hnsw_build::grown_by(start, g, n, pair, steps);
    lemma_growth_keeps_params(steps, pair, n as int);
    graph_codec::built_graphs_keep_to_the_limits(g);
}

proof fn lemma_part_is_no_longer(parts: Seq<Seq<u8>>, i: int)
    requires
        0 <= i < parts.len(),
    ensures
        parts[i].len() <= wire::concat(parts).len(),
{
    wire::lemma_occurs_whole(wire::concat(parts));
    wire::lemma_concat_part(wire::concat(parts), 0, parts, i);
}

/// A file that was written from its beginning holds every list: each reads back from its bytes.
pub proof fn written_lists_read_back<
    D: Fn(usize, &Vec<u8>) -> Vec<u32>,
    F: Fn(usize, usize, usize) -> u32,
>(
    before: VectorIndexWriter,
    decode: D,
    distance: F,
    after: VectorIndexWriter,
    out: Seq<u8>,
    i: usize,
)
    requires
        after.well_formed(),
        before.written(decode, distance, Seq::empty(), after, out, Ok(())),
        list_graphs::degrees_fit(before.row_counts(), before.graph_degree()),
        out.len() <= usize::MAX,
        i < before.spec_nlist(),
    ensures
        list_reads_back(after, decode, i),
{
    match (before, after) {
        (VectorIndexWriter::IvfFlat(a), VectorIndexWriter::IvfFlat(b)) => {
            lemma_part_is_no_longer(ivfflat_io::payloads(b@), i as int);
            ivfflat_io::flat_file_round_trip(b@, i);
        },
        (VectorIndexWriter::IvfHnswFlat(a), VectorIndexWriter::IvfHnswFlat(b)) => {
            lemma_part_is_no_longer(ivfhnswflat_io::payloads(b@), i as int);
            let dist = list_graphs::list_distances(distance);
            assert(a@.list_grown(dist, b@.graphs, i as int));
            if b@.flat.ids[i as int].len() > 0 {
                let params = a@.hnsw_params.spec_sanitized();
                lemma_grown_within_limits(
                    hnsw::empty_graph(
                        a@.flat.vectors[i as int].take(
                            (a@.flat.ids[i as int].len() * a@.flat.d) as int,
                        ),
                        a@.flat.d,
                        a@.flat.metric,
                        params,
                    ),
                    b@.graphs[i as int]->0,
                    a@.flat.ids[i as int].len(),
                    list_graphs::within_list(dist, i),
                    params,
                );
            }
            ivfhnswflat_io::hnsw_flat_file_round_trip(b@, i);
        },
        (VectorIndexWriter::IvfHnswSq(a), VectorIndexWriter::IvfHnswSq(b)) => {
            let dec = sq::decoding(decode);
            lemma_part_is_no_longer(ivfhnswsq_io::payloads(b@, dec), i as int);
            let dist = list_graphs::list_distances(distance);
            assert(a@.list_grown(decode, dist, b@.graphs, i as int));
            if b@.ids[i as int].len() > 0 {
                let params = a@.hnsw_params.spec_sanitized();
                lemma_grown_within_limits(
                    hnsw::empty_graph(
                        sq::decoded(decode, i, a@.codes[i as int]).take(
                            (a@.ids[i as int].len() * a@.d) as int,
                        ),
                        a@.d,
                        a@.metric,
                        params,
                    ),
                    b@.graphs[i as int]->0,
                    a@.ids[i as int].len(),
                    list_graphs::within_list(dist, i),
                    params,
                );
            }
            assert(ivfhnswsq_io::decodes_sorted(b@, dec, i as int));
            ivfhnswsq_law::hnsw_sq_file_round_trip(b@, dec, i);
        },
        _ => {},
    }
}

/// The first bytes of a file, as many as it is opened by.
pub open spec fn opening_bytes(writer: VectorIndexWriter, file: Seq<u8>) -> Seq<u8> {
    match writer {
        VectorIndexWriter::IvfHnswSq(_) => file,
        _ => file.take(64),
    }
}

/// The reader says of its index what the writer held, and has its bounds where it stores codes.
pub open spec fn reader_agrees(reader: VectorIndexReader, writer: VectorIndexWriter) -> bool {
    match (reader, writer) {
        (VectorIndexReader::IvfFlat(r), VectorIndexWriter::IvfFlat(index)) => r.nothing_loaded()
            && r.header() == ivfflat_io::stored_header(index@),
        (VectorIndexReader::IvfHnswFlat(r), VectorIndexWriter::IvfHnswFlat(index)) => {
            r.nothing_loaded() && r.header() == ivfhnswflat_io::stored_header(index@)
        },
        (VectorIndexReader::IvfHnswSq(r), VectorIndexWriter::IvfHnswSq(index)) => {
            &&& r.nothing_loaded()
            &&& r.header() == ivfhnswsq_io::stored_header(index@)
            &&& r.sq@ == index@.sq
            &&& ivfhnswsq::bounds_of(r.list_sqs@) == index@.list_sqs
        },
        _ => false,
    }
}

/// A file that was written from its beginning opens again: it says of its index what the writer
/// held, and so does every reader that it is opened by.
pub proof fn written_files_open_again<
    D: Fn(usize, &Vec<u8>) -> Vec<u32>,
    F: Fn(usize, usize, usize) -> u32,
>(
    before: VectorIndexWriter,
    decode: D,
    distance: F,
    after: VectorIndexWriter,
    out: Seq<u8>,
)
    requires
        after.well_formed(),
        before.written(decode, distance, Seq::empty(), after, out, Ok(())),
        list_graphs::degrees_fit(before.row_counts(), before.graph_degree()),
        out.len() <= usize::MAX,
    ensures
        index::metadata_of_file(opening_bytes(after, out)) == Ok::<
            VectorIndexMetadata,
            IndexError,
        >(metadata_of(after)),
        forall|reader: VectorIndexReader| #[trigger]
            reader.opened_from(opening_bytes(after, out)) ==> reader_agrees(reader, after),
{
    written_lists_read_back(before, decode, distance, after, out, 0);
    match after {
        VectorIndexWriter::IvfFlat(b) => {
            assert(out =~= ivfflat_io::file_bytes(b@, 0));
        },
        VectorIndexWriter::IvfHnswFlat(b) => {
            assert(out =~= ivfhnswflat_io::file_bytes(b@, 0));
        },
        VectorIndexWriter::IvfHnswSq(b) => {
            assert(out =~= ivfhnswsq_io::file_bytes(b@, sq::decoding(decode), 0));
        },
    }
}

} // verus!

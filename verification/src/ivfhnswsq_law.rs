//! What was written to a file of codes with graphs reads back.
use vstd::prelude::*;

use crate::error::{FileKind, IndexError};
use crate::graph_codec;
use crate::graph_codec::StoredGraph;
use crate::graph_lists;
use crate::graph_lists::GraphTable;
use crate::graph_reorder;
use crate::hnsw;
use crate::hnsw::GraphModel;
use crate::ivf_lists;
use crate::ivfhnswsq::HnswSqModel;
use crate::ivfhnswsq_io;
use crate::ivfhnswsq_read;
use crate::ivfhnswsq_read::{ListPayloadMeta, SqHeader, SqPrefix};
use crate::list_graphs;
use crate::list_table;
use crate::little_endian;
use crate::sq;
use crate::sq::SqBounds;
use crate::varint;
use crate::wire;

verus! {

proof fn lemma_header_found(s: Seq<u8>, m: HnswSqModel)
    requires
        ivfhnswsq_io::stored_header(m).fits(),
        wire::occurs(s, 0, ivfhnswsq_io::header_bytes(m)),
    ensures
        ivfhnswsq_io::header_bytes(m).len() == 64,
        ivfhnswsq_read::parse_header(s) == Ok::<SqHeader, IndexError>(
            SqHeader {
                front: ivfhnswsq_io::stored_header(m),
                sq_min: sq::global_bounds(m.sq.mins, m.sq.maxs).0,
                sq_max: sq::global_bounds(m.sq.mins, m.sq.maxs).1,
            },
        ),
{
    let front = graph_lists::front_bytes(
        ivfhnswsq_io::IVF_HNSW_SQ_MAGIC,
        ivfhnswsq_io::IVF_HNSW_SQ_VERSION,
        ivfhnswsq_io::stored_header(m),
    );
    let lo = sq::global_bounds(m.sq.mins, m.sq.maxs).0;
    let hi = sq::global_bounds(m.sq.mins, m.sq.maxs).1;
    let a = little_endian::u32_bytes(lo);
    let b = little_endian::u32_bytes(hi);
    let c = little_endian::u32_bytes(ivfhnswsq_io::REQUIRED_FLAGS);
    let z = list_table::zeros(12);
    little_endian::lemma_lens();
    wire::lemma_occurs_split(s, 0, front + a + b + c, z);
    wire::lemma_occurs_split(s, 0, front + a + b, c);
    wire::lemma_occurs_split(s, 0, front + a, b);
    wire::lemma_occurs_split(s, 0, front, a);
    graph_lists::lemma_front_found(
        s,
        FileKind::IvfHnswSq,
        ivfhnswsq_io::IVF_HNSW_SQ_MAGIC,
        ivfhnswsq_io::IVF_HNSW_SQ_VERSION,
        ivfhnswsq_io::stored_header(m),
    );
    little_endian::read_back_u32(s, 40, lo);
    little_endian::read_back_u32(s, 44, hi);
    little_endian::read_back_u32(s, 48, ivfhnswsq_io::REQUIRED_FLAGS);
    assert(s.subrange(52, 64) == z);
}

proof fn lemma_bounds_found(s: Seq<u8>, pos: int, b: SqBounds, d: usize)
    requires
        b.d == d,
        b.valid(d),
        wire::occurs(s, pos, ivfhnswsq_io::bounds_bytes(b)),
    ensures
        ivfhnswsq_io::bounds_bytes(b).len() == 8 * d,
        ivfhnswsq_read::parse_bounds(s, pos, d) == Ok::<SqBounds, IndexError>(b),
{
    let lo = little_endian::u32_seq_bytes(b.mins);
    let hi = little_endian::u32_seq_bytes(b.maxs);
    little_endian::lemma_u32_seq_bytes_len(b.mins);
    little_endian::lemma_u32_seq_bytes_len(b.maxs);
    wire::lemma_occurs_split(s, pos, lo, hi);
    little_endian::u32_seq_round_trip(b.mins);
    little_endian::u32_seq_round_trip(b.maxs);
    assert(ivfhnswsq_read::bounds_at(s, pos, d) =~= b);
}

proof fn lemma_bounds_len(m: HnswSqModel, k: int)
    requires
        ivfhnswsq_io::bounds_ok(m),
        0 <= k <= m.nlist,
    ensures
        wire::concat(ivfhnswsq_io::list_bounds_parts(m).take(k)).len() == (8 * m.d) * k,
{
    let parts = ivfhnswsq_io::list_bounds_parts(m).take(k);
    assert forall|i: int| 0 <= i < parts.len() implies (#[trigger] parts[i]).len() == (8
        * m.d) as nat by {
        assert(ivfhnswsq_io::list_bounds_ok(m, i));
        assert(parts[i] == ivfhnswsq_io::bounds_bytes(m.list_sqs[i]));
        little_endian::lemma_u32_seq_bytes_len(m.list_sqs[i].mins);
        little_endian::lemma_u32_seq_bytes_len(m.list_sqs[i].maxs);
    }
    wire::lemma_concat_len(parts, (8 * m.d) as nat);
}

proof fn lemma_list_bounds_found(s: Seq<u8>, pos: int, m: HnswSqModel, k: int)
    requires
        ivfhnswsq_io::bounds_ok(m),
        wire::occurs(s, pos, wire::concat(ivfhnswsq_io::list_bounds_parts(m))),
        0 <= k <= m.nlist,
    ensures
        ivfhnswsq_read::parse_list_bounds(
            s,
            pos + (8 * m.d) * k,
            m.list_sqs.take(k),
            m.d,
            m.nlist as nat,
        ) == Ok::<Seq<SqBounds>, IndexError>(m.list_sqs),
    decreases m.nlist - k,
{
    if k == m.nlist {
        assert(m.list_sqs.take(k) =~= m.list_sqs);
    } else {
        wire::lemma_concat_part(s, pos, ivfhnswsq_io::list_bounds_parts(m), k);
        lemma_bounds_len(m, k);
        assert(ivfhnswsq_io::list_bounds_ok(m, k));
        lemma_bounds_found(s, pos + (8 * m.d) * k, m.list_sqs[k], m.d);
        assert(m.list_sqs.take(k).push(m.list_sqs[k]) =~= m.list_sqs.take(k + 1));
        assert((8 * m.d) * (k + 1) == (8 * m.d) * k + 8 * m.d) by (nonlinear_arith);
        lemma_list_bounds_found(s, pos, m, k + 1);
    }
}

proof fn lemma_prefix_found(s: Seq<u8>, m: HnswSqModel)
    requires
        ivfhnswsq_io::bounds_ok(m),
        ivfhnswsq_io::stored_header(m).fits(),
        wire::occurs(s, 0, ivfhnswsq_io::prefix_bytes(m)),
    ensures
        ivfhnswsq_io::prefix_bytes(m).len() == ivfhnswsq_io::centroids_start(m.d, m.nlist, 0),
        ivfhnswsq_read::parse_prefix(s) == Ok::<SqPrefix, IndexError>(
            SqPrefix {
                header: SqHeader {
                    front: ivfhnswsq_io::stored_header(m),
                    sq_min: sq::global_bounds(m.sq.mins, m.sq.maxs).0,
                    sq_max: sq::global_bounds(m.sq.mins, m.sq.maxs).1,
                },
                sq: m.sq,
                list_sqs: m.list_sqs,
            },
        ),
{
    let header = ivfhnswsq_io::header_bytes(m);
    let own = ivfhnswsq_io::bounds_bytes(m.sq);
    let lists = wire::concat(ivfhnswsq_io::list_bounds_parts(m));
    wire::lemma_occurs_split(s, 0, header + own, lists);
    wire::lemma_occurs_split(s, 0, header, own);
    lemma_header_found(s, m);
    lemma_bounds_found(s, 64, m.sq, m.d);
    lemma_bounds_len(m, m.nlist as int);
    wire::lemma_concat_all(ivfhnswsq_io::list_bounds_parts(m));
    assert((8 * m.d) * m.nlist + 8 * m.d == 8 * (m.d * (m.nlist + 1))) by (nonlinear_arith);
    lemma_list_bounds_found(s, 64 + 8 * m.d, m, 0);
    assert((8 * m.d) * 0 == 0) by (nonlinear_arith);
    assert(m.list_sqs.take(0) =~= Seq::<SqBounds>::empty());
}

proof fn lemma_table_fits(m: HnswSqModel, dec: ivfhnswsq_io::Decoding, start: int)
    requires
        ivfhnswsq_io::fits(m, dec, start),
    ensures
        ivfhnswsq_io::stored_table(m, dec, start).fits(m.nlist as nat),
        forall|i: int|
            0 <= i < m.nlist ==> #[trigger] ivfhnswsq_io::stored_table(m, dec, start).tails[i] >= 0,
{
    let t = ivfhnswsq_io::stored_table(m, dec, start);
    assert forall|i: int| 0 <= i < m.nlist implies #[trigger] t.counts[i] >= 0 by {
        assert(ivfhnswsq_io::list_fits(m, dec, i));
    }
    assert forall|i: int| 0 <= i < m.nlist implies #[trigger] t.graph_lens[i] >= 0 by {
        assert(ivfhnswsq_io::list_fits(m, dec, i));
    }
    assert forall|i: int| 0 <= i < m.nlist implies #[trigger] t.tails[i] >= 0 by {
        assert(ivfhnswsq_io::list_fits(m, dec, i));
    }
}

/// What follows the bounds in the file of an index.
pub open spec fn after_prefix(m: HnswSqModel, dec: ivfhnswsq_io::Decoding) -> Seq<u8> {
    ivfhnswsq_io::file_bytes(m, dec, 0).skip(ivfhnswsq_io::centroids_start(m.d, m.nlist, 0))
}

proof fn lemma_file_split(m: HnswSqModel, dec: ivfhnswsq_io::Decoding)
    requires
        ivfhnswsq_io::shape_ok(m, dec),
        ivfhnswsq_io::fits(m, dec, 0),
    ensures
        ivfhnswsq_io::prefix_bytes(m).len() == ivfhnswsq_io::centroids_start(m.d, m.nlist, 0),
        wire::occurs(ivfhnswsq_io::file_bytes(m, dec, 0), 0, ivfhnswsq_io::prefix_bytes(m)),
        after_prefix(m, dec) == little_endian::u32_seq_bytes(m.centroids)
            + ivfhnswsq_io::stored_table(m, dec, 0).bytes() + wire::concat(
            ivfhnswsq_io::payloads(m, dec),
        ),
{
    let s = ivfhnswsq_io::file_bytes(m, dec, 0);
    let prefix = ivfhnswsq_io::prefix_bytes(m);
    let rest = little_endian::u32_seq_bytes(m.centroids) + ivfhnswsq_io::stored_table(
        m,
        dec,
        0,
    ).bytes() + wire::concat(ivfhnswsq_io::payloads(m, dec));
    assert(s =~= prefix + rest);
    wire::lemma_occurs_whole(s);
    wire::lemma_occurs_split(s, 0, prefix, rest);
    lemma_prefix_found(s, m);
    assert(after_prefix(m, dec) =~= rest);
}

proof fn lemma_section(m: HnswSqModel, dec: ivfhnswsq_io::Decoding)
    requires
        ivfhnswsq_io::shape_ok(m, dec),
        ivfhnswsq_io::fits(m, dec, 0),
    ensures
        ivfhnswsq_read::parse_section(after_prefix(m, dec), m.d, m.nlist) == Ok::<
            (Seq<u32>, GraphTable),
            IndexError,
        >((m.centroids, ivfhnswsq_io::stored_table(m, dec, 0))),
{
    let centroids = little_endian::u32_seq_bytes(m.centroids);
    let t = ivfhnswsq_io::stored_table(m, dec, 0);
    let lists = wire::concat(ivfhnswsq_io::payloads(m, dec));
    lemma_file_split(m, dec);
    lemma_table_fits(m, dec, 0);
    let rest = after_prefix(m, dec);
    little_endian::lemma_u32_seq_bytes_len(m.centroids);
    little_endian::u32_seq_round_trip(m.centroids);
    wire::lemma_occurs_whole(rest);
    wire::lemma_occurs_split(rest, 0, centroids + t.bytes(), lists);
    wire::lemma_occurs_split(rest, 0, centroids, t.bytes());
    assert(rest.take(4 * (m.nlist * m.d)) =~= centroids);
    assert(t.prefix(0) =~= graph_lists::no_table());
    graph_lists::lemma_table_found(rest, centroids.len() as int, t, m.nlist as nat, true, 0);
}

/// The graph that list `i` reads back with.
pub open spec fn graph_read_back(m: HnswSqModel, dec: ivfhnswsq_io::Decoding, i: int) -> StoredGraph {
    let g = ivfhnswsq_io::sorted_graph(m, dec, i);
    StoredGraph {
        levels: g.levels,
        adjacency: graph_codec::sorted_adjacency(g.adjacency),
        entry_point: g.entry_point,
        max_observed_level: g.max_observed_level,
    }
}

/// What list `i` reads back as, given what the table says of it.
pub open spec fn list_reads_back(
    m: HnswSqModel,
    dec: ivfhnswsq_io::Decoding,
    i: int,
    meta: ListPayloadMeta,
) -> bool {
    let stored = graph_read_back(m, dec, i);
    let codes = ivfhnswsq_io::sorted_codes(m, i);
    &&& ivfhnswsq_read::payload_parts(ivfhnswsq_io::payload(m, dec, i), meta, m.d) == Ok::<
        (Seq<i64>, Seq<u8>, Seq<u8>),
        IndexError,
    >((ivf_lists::sorted_ids(m.ids[i]), codes, ivfhnswsq_io::graph_section(m, dec, i)))
    &&& ivfhnswsq_io::graph_section(m, dec, i).len() > 0
    &&& graph_codec::parse_graph(
        ivfhnswsq_io::graph_section(m, dec, i),
        meta.count,
        m.hnsw_params.spec_sanitized(),
    ) == Ok::<StoredGraph, IndexError>(stored)
    &&& forall|e: IndexError|
        !#[trigger] hnsw::parts_refused(
            dec(i as usize, codes).len(),
            meta.count,
            m.d,
            stored.levels,
            stored.adjacency,
            stored.entry_point,
            stored.max_observed_level,
            e,
        )
}

proof fn lemma_reordered_limits(
    g: GraphModel,
    order: Seq<usize>,
    vectors: Seq<u32>,
    d: usize,
    m: HnswSqModel,
)
    requires
        graph_codec::within_limits(g, m.hnsw_params.spec_sanitized()),
        graph_reorder::is_permutation(order),
        order.len() == g.levels.len(),
        g.adjacency.len() == g.levels.len(),
    ensures
        graph_codec::within_limits(
            graph_reorder::reordered(g, order, vectors, d, m.metric, m.hnsw_params),
            m.hnsw_params.spec_sanitized(),
        ),
{
    let h = graph_reorder::reordered(g, order, vectors, d, m.metric, m.hnsw_params);
    let params = m.hnsw_params.spec_sanitized();
    assert forall|i: int| 0 <= i < h.levels.len() implies #[trigger] h.levels[i]
        < params.max_level by {
        assert(order[i] < order.len());
        assert(g.levels[order[i] as int] < params.max_level);
    }
    assert forall|i: int, l: int|
        0 <= i < h.adjacency.len() && 0 <= l < h.adjacency[i].len() implies (
    #[trigger] h.adjacency[i][l]).len() <= graph_codec::stored_limit(params.m, l) by {
        assert(order[i] < order.len());
        assert(g.adjacency[order[i] as int][l].len() <= graph_codec::stored_limit(params.m, l));
    }
}

proof fn lemma_payload(m: HnswSqModel, dec: ivfhnswsq_io::Decoding, i: int, meta: ListPayloadMeta)
    requires
        ivfhnswsq_io::shape_ok(m, dec),
        ivfhnswsq_io::decodes_sorted(m, dec, i),
        list_graphs::graphs_well_formed(m.graphs),
        0 <= i < m.nlist,
        ivfhnswsq_io::list_fits(m, dec, i),
        m.ids[i].len() > 0,
        graph_codec::within_limits(m.graphs[i]->0, m.hnsw_params.spec_sanitized()),
        ivfhnswsq_io::payload(m, dec, i).len() <= usize::MAX,
        meta == (ListPayloadMeta {
            list_id: i as usize,
            offset: meta.offset,
            count: m.ids[i].len() as usize,
            payload_len: ivfhnswsq_io::payload(m, dec, i).len() as usize,
        }),
    ensures
        ivfhnswsq_io::payload(m, dec, i).len() >= 12 + ivfhnswsq_io::graph_section(m, dec, i).len(),
        list_reads_back(m, dec, i, meta),
{
    let s = ivfhnswsq_io::payload(m, dec, i);
    let ids = ivf_lists::sorted_ids(m.ids[i]);
    let order = ivf_lists::id_order(m.ids[i]);
    let codes = ivfhnswsq_io::sorted_codes(m, i);
    let section = ivfhnswsq_io::id_section(m, i);
    let graph = ivfhnswsq_io::graph_section(m, dec, i);
    let count = m.ids[i].len();
    assert(ivfhnswsq_io::list_ok(m, dec, i));
    ivf_lists::lemma_sorted_ids(m.ids[i]);
    ivf_lists::lemma_gathered_len(m.codes[i], m.d as nat, order, count);
    assert(codes.len() == count * m.d);
    let a = little_endian::i64_bytes(ids[0]);
    let b = little_endian::i32_bytes(section.len() as i32);
    little_endian::lemma_lens();
    wire::lemma_occurs_whole(s);
    wire::lemma_occurs_split(s, 0, a + b + section + codes, graph);
    wire::lemma_occurs_split(s, 0, a + b + section, codes);
    wire::lemma_occurs_split(s, 0, a + b, section);
    wire::lemma_occurs_split(s, 0, a, b);
    little_endian::read_back_i64(s, 0, ids[0]);
    little_endian::read_back_i32(s, 8, section.len() as i32);
    let ids_end = 12 + section.len() as int;
    let codes_end = ids_end + codes.len();
    assert(s.subrange(12, ids_end) =~= section);
    assert(s.subrange(ids_end, codes_end) =~= codes);
    assert(s.skip(codes_end) =~= graph);
    varint::ids_round_trip(ids[0], ids, Seq::empty());
    let g = m.graphs[i]->0;
    let vectors = dec(i as usize, codes);
    assert(g.well_formed());
    graph_reorder::reordering_keeps_the_graph(g, order, vectors, m.d, m.metric, m.hnsw_params);
    lemma_reordered_limits(g, order, vectors, m.d, m);
    graph_codec::graph_round_trip(
        ivfhnswsq_io::sorted_graph(m, dec, i),
        m.hnsw_params.spec_sanitized(),
    );
}

proof fn lemma_file_list(m: HnswSqModel, dec: ivfhnswsq_io::Decoding, i: usize)
    requires
        ivfhnswsq_io::shape_ok(m, dec),
        ivfhnswsq_io::decodes_sorted(m, dec, i as int),
        list_graphs::graphs_well_formed(m.graphs),
        ivfhnswsq_io::fits(m, dec, 0),
        i < m.nlist,
        ivfhnswsq_io::payload(m, dec, i as int).len() <= usize::MAX,
        m.ids[i as int].len() > 0 ==> graph_codec::within_limits(
            m.graphs[i as int]->0,
            m.hnsw_params.spec_sanitized(),
        ),
    ensures
        ({
            let t = ivfhnswsq_io::stored_table(m, dec, 0);
            let meta = ListPayloadMeta {
                list_id: i,
                offset: t.offsets[i as int] as u64,
                count: m.ids[i as int].len() as usize,
                payload_len: ivfhnswsq_io::payload(m, dec, i as int).len() as usize,
            };
            if m.ids[i as int].len() == 0 {
                ivfhnswsq_read::payload_meta(t, m.nlist, i) == Ok::<
                    Option<ListPayloadMeta>,
                    IndexError,
                >(None)
            } else {
                &&& ivfhnswsq_read::payload_meta(t, m.nlist, i) == Ok::<
                    Option<ListPayloadMeta>,
                    IndexError,
                >(Some(meta))
                &&& wire::occurs(
                    ivfhnswsq_io::file_bytes(m, dec, 0),
                    meta.offset as int,
                    ivfhnswsq_io::payload(m, dec, i as int),
                )
                &&& list_reads_back(m, dec, i as int, meta)
            }
        }),
{
    let s = ivfhnswsq_io::file_bytes(m, dec, 0);
    let t = ivfhnswsq_io::stored_table(m, dec, 0);
    let parts = ivfhnswsq_io::payloads(m, dec);
    assert(ivfhnswsq_io::list_fits(m, dec, i as int));
    let offset = list_table::list_offset(parts, ivfhnswsq_io::data_start(m, 0), i as int);
    assert(offset <= i64::MAX);
    if m.ids[i as int].len() > 0 {
        let prefix = ivfhnswsq_io::prefix_bytes(m);
        let centroids = little_endian::u32_seq_bytes(m.centroids);
        lemma_file_split(m, dec);
        little_endian::lemma_u32_seq_bytes_len(m.centroids);
        graph_lists::lemma_table_len(t, 0);
        wire::lemma_occurs_whole(s);
        wire::lemma_occurs_split(s, 0, prefix + centroids + t.bytes(), wire::concat(parts));
        assert(ivfhnswsq_io::centroids_start(m.d, m.nlist, 0) >= 0);
        wire::lemma_concat_part(s, ivfhnswsq_io::data_start(m, 0), parts, i as int);
        let meta = ListPayloadMeta {
            list_id: i,
            offset: t.offsets[i as int] as u64,
            count: m.ids[i as int].len() as usize,
            payload_len: ivfhnswsq_io::payload(m, dec, i as int).len() as usize,
        };
        lemma_payload(m, dec, i as int, meta);
    }
}

/// An index that was written to a file of its own reads back: what stands before the centroids,
/// the centroids and the table, and of each list the place and, from the bytes at that place, the
/// ids and codes in the order of the ids, and a graph with the levels and neighbours of the nodes
/// in that order.
pub open spec fn reads_back(m: HnswSqModel, dec: ivfhnswsq_io::Decoding, i: usize) -> bool {
    let s = ivfhnswsq_io::file_bytes(m, dec, 0);
    let t = ivfhnswsq_io::stored_table(m, dec, 0);
    let meta = ListPayloadMeta {
        list_id: i,
        offset: t.offsets[i as int] as u64,
        count: m.ids[i as int].len() as usize,
        payload_len: ivfhnswsq_io::payload(m, dec, i as int).len() as usize,
    };
    &&& ivfhnswsq_read::parse_prefix(s) matches Ok(p) && p.header.front
        == ivfhnswsq_io::stored_header(m) && p.sq == m.sq && p.list_sqs == m.list_sqs
    &&& ivfhnswsq_read::parse_section(after_prefix(m, dec), m.d, m.nlist) == Ok::<
        (Seq<u32>, GraphTable),
        IndexError,
    >((m.centroids, t))
    &&& if m.ids[i as int].len() == 0 {
        ivfhnswsq_read::payload_meta(t, m.nlist, i) == Ok::<
            Option<ListPayloadMeta>,
            IndexError,
        >(None)
    } else {
        &&& ivfhnswsq_read::payload_meta(t, m.nlist, i) == Ok::<
            Option<ListPayloadMeta>,
            IndexError,
        >(Some(meta))
        &&& wire::occurs(s, meta.offset as int, ivfhnswsq_io::payload(m, dec, i as int))
        &&& list_reads_back(m, dec, i as int, meta)
    }
}

/// Every index of a good shape that fits into a file, with graphs that keep to the limits, reads back
/// from one of its own.
pub proof fn hnsw_sq_file_round_trip(m: HnswSqModel, dec: ivfhnswsq_io::Decoding, i: usize)
    requires
        ivfhnswsq_io::shape_ok(m, dec),
        ivfhnswsq_io::decodes_sorted(m, dec, i as int),
        list_graphs::graphs_well_formed(m.graphs),
        ivfhnswsq_io::fits(m, dec, 0),
        i < m.nlist,
        ivfhnswsq_io::payload(m, dec, i as int).len() <= usize::MAX,
        m.ids[i as int].len() > 0 ==> graph_codec::within_limits(
            m.graphs[i as int]->0,
            m.hnsw_params.spec_sanitized(),
        ),
    ensures
        reads_back(m, dec, i),
{
    lemma_file_split(m, dec);
    lemma_prefix_found(ivfhnswsq_io::file_bytes(m, dec, 0), m);
    lemma_section(m, dec);
    lemma_file_list(m, dec, i);
}

} // verus!

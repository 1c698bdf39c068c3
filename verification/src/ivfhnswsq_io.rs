//! Files of inverted lists of codes with a graph over each list.
//!
//! A file is a header of 64 bytes, the bounds of the quantizer and of each list, the centroids, a
//! table with 24 bytes for each list (where it starts, how many rows it holds, how long its graph
//! and how long all of it is), and the lists. A list that is not empty holds its first id, the
//! length of its id section, the section, its codes and its graph; rows are in the order of their
//! ids, and the nodes of the graph are numbered accordingly.
use vstd::prelude::*;

use crate::error::{Field, FileKind, IndexError};
use crate::float_bits;
use crate::graph_codec;
use crate::graph_lists;
use crate::graph_lists::{GraphHeader, GraphTable, GraphTableVecs};
use crate::graph_reorder;
use crate::hnsw::{GraphModel, HnswGraph};
use crate::index_io_util;
use crate::ivf_lists;
use crate::ivfhnswsq::{HnswSqModel, IVFHNSWSQIndex};
use crate::list_graphs;
use crate::list_table;
use crate::little_endian;
use crate::sq;
use crate::sq::{ScalarQuantizer, SqBounds};
use crate::varint;
use crate::wire;

verus! {

pub const IVF_HNSW_SQ_MAGIC: u32 = 0x49485351;

pub const IVF_HNSW_SQ_VERSION: u32 = 1;

pub const IVF_HNSW_SQ_HEADER_SIZE: usize = 64;

/// Ids are stored by their differences, and graphs in their first version.
pub const REQUIRED_FLAGS: u32 = 3;

/// What codes are decoded to, by list.
pub type Decoding = spec_fn(usize, Seq<u8>) -> Seq<u32>;

/// The graph of a list has a node for each row, over the vectors that the codes stand for.
pub open spec fn graph_ok(m: HnswSqModel, dec: Decoding, i: int) -> bool {
    match m.graphs[i] {
        Some(g) => m.ids[i].len() > 0 && g.levels.len() == m.ids[i].len()
            && float_bits::same_values(g.vectors, dec(i as usize, m.codes[i])),
        None => m.ids[i].len() == 0,
    }
}

/// List `i` has a code for each row, and a graph over them if it is not empty.
pub open spec fn list_ok(m: HnswSqModel, dec: Decoding, i: int) -> bool {
    m.codes[i].len() == m.ids[i].len() * m.sq.d && graph_ok(m, dec, i)
}

/// List `i` is the first one that is not complete, and `e` says what is wrong with it.
pub open spec fn first_bad_list(m: HnswSqModel, dec: Decoding, i: int, e: IndexError) -> bool {
    &&& 0 <= i < m.nlist
    &&& forall|k: int| 0 <= k < i ==> #[trigger] list_ok(m, dec, k)
    &&& if m.ids[i].len() * m.sq.d > usize::MAX {
        e == IndexError::ListBytesOverflow
    } else if m.codes[i].len() != m.ids[i].len() * m.sq.d {
        e == IndexError::ListCodeLength {
            file: FileKind::IvfHnswSq,
            list_id: i as usize,
            len: m.codes[i].len() as usize,
            expected: (m.ids[i].len() * m.sq.d) as usize,
        }
    } else if m.graphs[i] is None {
        m.ids[i].len() > 0 && e == IndexError::GraphNotBuilt { list_id: i as usize }
    } else if m.ids[i].len() == 0 {
        e == IndexError::GraphOfEmptyList { list_id: i as usize }
    } else {
        !graph_ok(m, dec, i) && e == IndexError::GraphMismatch { file: FileKind::IvfHnswSq, list_id: i as usize }
    }
}

pub open spec fn list_bounds_ok(m: HnswSqModel, i: int) -> bool {
    m.list_sqs[i].d == m.d && m.list_sqs[i].valid(m.d)
}

/// The bounds of list `i` are the first bad ones, and `e` says what is wrong with them.
pub open spec fn first_bad_bounds(m: HnswSqModel, i: int, e: IndexError) -> bool {
    &&& 0 <= i < m.nlist
    &&& forall|k: int| 0 <= k < i ==> #[trigger] list_bounds_ok(m, k)
    &&& if m.list_sqs[i].d != m.d {
        e == IndexError::SqListDimension { list_id: i as usize }
    } else {
        !m.list_sqs[i].valid(m.d) && sq::bounds_refused(m.list_sqs[i], m.d, e)
    }
}

/// The bounds of the quantizer and of the lists are as they should be.
pub open spec fn bounds_ok(m: HnswSqModel) -> bool {
    &&& m.sq.d == m.d
    &&& m.sq.valid(m.d)
    &&& m.list_sqs.len() == m.nlist
    &&& forall|i: int| 0 <= i < m.nlist ==> #[trigger] list_bounds_ok(m, i)
}

/// What is wrong with the bounds, if something is.
pub open spec fn bounds_refused(m: HnswSqModel, e: IndexError) -> bool {
    if m.sq.d != m.d {
        e == IndexError::SqDimension
    } else if !m.sq.valid(m.d) {
        sq::bounds_refused(m.sq, m.d, e)
    } else if m.list_sqs.len() != m.nlist {
        e == IndexError::SqListCount
    } else {
        exists|i: int| #[trigger] first_bad_bounds(m, i, e)
    }
}

/// What is wrong with the shape of an index, if something is.
pub open spec fn shape_refused(m: HnswSqModel, dec: Decoding, e: IndexError) -> bool {
    if m.d == 0 {
        e == IndexError::DimensionZero
    } else if m.nlist == 0 {
        e == IndexError::NlistZero
    } else if !bounds_ok(m) {
        bounds_refused(m, e)
    } else {
        match index_io_util::section_size(m.nlist, m.d) {
            Err(err) => e == err,
            Ok(size) => if m.centroids.len() != size {
                e == IndexError::CentroidLength {
                    file: FileKind::IvfHnswSq,
                    len: m.centroids.len() as usize,
                    expected: size,
                }
            } else if m.ids.len() != m.nlist || m.codes.len() != m.nlist || m.graphs.len()
                != m.nlist {
                e == IndexError::ListStorage { file: FileKind::IvfHnswSq }
            } else {
                exists|i: int| #[trigger] first_bad_list(m, dec, i, e)
            },
        }
    }
}

/// As many bounds, centroids, lists, codes and graphs as there should be.
pub open spec fn shape_ok(m: HnswSqModel, dec: Decoding) -> bool {
    &&& m.d > 0
    &&& m.nlist > 0
    &&& bounds_ok(m)
    &&& m.nlist * m.d <= index_io_util::MAX_SECTION_ELEMENTS
    &&& m.centroids.len() == m.nlist * m.d
    &&& m.ids.len() == m.nlist
    &&& m.codes.len() == m.nlist
    &&& m.graphs.len() == m.nlist
    &&& forall|i: int| 0 <= i < m.nlist ==> #[trigger] list_ok(m, dec, i)
}

fn validate_bounds(index: &IVFHNSWSQIndex) -> (r: Result<(), IndexError>)
    ensures
        match r {
            Ok(_) => bounds_ok(index@),
            Err(e) => !bounds_ok(index@) && bounds_refused(index@, e),
        },
{
    let ghost m = index@;
    if index.sq.d != index.d {
        return Err(IndexError::SqDimension);
    }
    match sq::validate_sq_bounds(index.d, &index.sq.mins, &index.sq.maxs) {
        Ok(_) => {},
        Err(e) => {
            return Err(e);
        },
    }
    if index.list_sqs.len() != index.nlist {
        return Err(IndexError::SqListCount);
    }
    for i in 0..index.nlist
        invariant
            m == index@,
            m.sq.d == m.d,
            m.sq.valid(m.d),
            m.list_sqs.len() == m.nlist,
            forall|k: int| 0 <= k < i ==> #[trigger] list_bounds_ok(m, k),
    {
        assert(m.list_sqs[i as int] == index.list_sqs@[i as int]@);
        if index.list_sqs[i].d != index.d {
            let e = IndexError::SqListDimension { list_id: i };
            assert(!list_bounds_ok(m, i as int));
            assert(first_bad_bounds(m, i as int, e));
            return Err(e);
        }
        match sq::validate_sq_bounds(index.d, &index.list_sqs[i].mins, &index.list_sqs[i].maxs) {
            Ok(_) => {},
            Err(e) => {
                assert(!list_bounds_ok(m, i as int));
                assert(first_bad_bounds(m, i as int, e));
                return Err(e);
            },
        }
    }
    Ok(())
}

fn validate_list<D: Fn(usize, &Vec<u8>) -> Vec<u32>>(
    index: &IVFHNSWSQIndex,
    decode: &D,
    i: usize,
) -> (r: Result<(), IndexError>)
    requires
        sq::is_decoder(*decode, index@.nlist as nat),
        i < index@.nlist,
        index@.ids.len() == index@.nlist,
        index@.codes.len() == index@.nlist,
        index@.graphs.len() == index@.nlist,
    ensures
        match r {
            Ok(_) => list_ok(index@, sq::decoding(*decode), i as int),
            Err(e) => {
                &&& !list_ok(index@, sq::decoding(*decode), i as int)
                &&& (forall|k: int|
                    0 <= k < i ==> #[trigger] list_ok(index@, sq::decoding(*decode), k))
                    ==> first_bad_list(index@, sq::decoding(*decode), i as int, e)
            },
        },
{
    let ghost m = index@;
    assert(m.ids[i as int] == index.ids@[i as int]@);
    assert(m.codes[i as int] == index.codes@[i as int]@);
    assert(m.graphs[i as int] == list_graphs::graph_view(index.graphs@[i as int]));
    let count: usize = index.ids[i].len();
    let stored: usize = index.codes[i].len();
    let expected: usize = match index_io_util::checked_list_bytes(count, index.sq.code_size()) {
        Ok(v) => v,
        Err(e) => {
            assert(m.ids[i as int].len() * m.sq.d != stored);
            return Err(e);
        },
    };
    if stored != expected {
        return Err(IndexError::ListCodeLength { file: FileKind::IvfHnswSq, list_id: i, len: stored, expected });
    }
    match &index.graphs[i] {
        Some(graph) => {
            if count == 0 {
                return Err(IndexError::GraphOfEmptyList { list_id: i });
            }
            let decoded: Vec<u32> = decode(i, &index.codes[i]);
            if graph.len() != count || !float_bits::equal_values(
                graph.vectors(),
                decoded.as_slice(),
            ) {
                return Err(IndexError::GraphMismatch { file: FileKind::IvfHnswSq, list_id: i });
            }
        },
        None => {
            if count > 0 {
                return Err(IndexError::GraphNotBuilt { list_id: i });
            }
        },
    }
    Ok(())
}

/// Refuses an index whose parts do not fit each other.
pub fn validate_index_shape<D: Fn(usize, &Vec<u8>) -> Vec<u32>>(
    index: &IVFHNSWSQIndex,
    decode: &D,
) -> (r: Result<(), IndexError>)
    requires
        sq::is_decoder(*decode, index@.nlist as nat),
    ensures
        match r {
            Ok(_) => shape_ok(index@, sq::decoding(*decode)),
            Err(e) => shape_refused(index@, sq::decoding(*decode), e) && !shape_ok(
                index@,
                sq::decoding(*decode),
            ),
        },
{
    let ghost m = index@;
    let ghost dec = sq::decoding(*decode);
    if index.d == 0 {
        return Err(IndexError::DimensionZero);
    }
    if index.nlist == 0 {
        return Err(IndexError::NlistZero);
    }
    match validate_bounds(index) {
        Ok(_) => {},
        Err(e) => {
            return Err(e);
        },
    }
    let centroid_len: usize = match index_io_util::checked_section_size(index.nlist, index.d) {
        Ok(v) => v,
        Err(e) => {
            return Err(e);
        },
    };
    if index.quantizer_centroids.len() != centroid_len {
        return Err(
            IndexError::CentroidLength {
                file: FileKind::IvfHnswSq,
                len: index.quantizer_centroids.len(),
                expected: centroid_len,
            },
        );
    }
    if index.ids.len() != index.nlist || index.codes.len() != index.nlist || index.graphs.len()
        != index.nlist {
        return Err(IndexError::ListStorage { file: FileKind::IvfHnswSq });
    }
    for i in 0..index.nlist
        invariant
            m == index@,
            dec == sq::decoding(*decode),
            sq::is_decoder(*decode, m.nlist as nat),
            m.d > 0,
            m.nlist > 0,
            bounds_ok(m),
            m.ids.len() == m.nlist,
            m.codes.len() == m.nlist,
            m.graphs.len() == m.nlist,
            index_io_util::section_size(m.nlist, m.d) == Ok::<usize, IndexError>(centroid_len),
            m.centroids.len() == centroid_len,
            forall|k: int| 0 <= k < i ==> #[trigger] list_ok(m, dec, k),
    {
        match validate_list(index, decode, i) {
            Ok(_) => {},
            Err(e) => {
                assert(first_bad_list(m, dec, i as int, e));
                return Err(e);
            },
        }
    }
    Ok(())
}

/// The rows of list `i` in the order of their ids.
pub open spec fn sorted_codes(m: HnswSqModel, i: int) -> Seq<u8> {
    ivf_lists::sorted_rows(m.codes[i], m.sq.d as nat, m.ids[i])
}

/// The graph of list `i` with its nodes in the order of the ids.
pub open spec fn sorted_graph(m: HnswSqModel, dec: Decoding, i: int) -> GraphModel {
    graph_reorder::reordered(
        m.graphs[i]->0,
        ivf_lists::id_order(m.ids[i]),
        dec(i as usize, sorted_codes(m, i)),
        m.d,
        m.metric,
        m.hnsw_params,
    )
}

/// The id section of list `i`.
pub open spec fn id_section(m: HnswSqModel, i: int) -> Seq<u8> {
    let ids = ivf_lists::sorted_ids(m.ids[i]);
    varint::ids_bytes(ids[0], ids)
}

/// The graph of list `i` as it is stored.
pub open spec fn graph_section(m: HnswSqModel, dec: Decoding, i: int) -> Seq<u8> {
    if m.ids[i].len() == 0 {
        Seq::empty()
    } else {
        graph_codec::graph_bytes(sorted_graph(m, dec, i))
    }
}

/// List `i` as it is stored.
pub open spec fn payload(m: HnswSqModel, dec: Decoding, i: int) -> Seq<u8> {
    if m.ids[i].len() == 0 {
        Seq::empty()
    } else {
        little_endian::i64_bytes(ivf_lists::sorted_ids(m.ids[i])[0]) + little_endian::i32_bytes(
            id_section(m, i).len() as i32,
        ) + id_section(m, i) + sorted_codes(m, i) + graph_section(m, dec, i)
    }
}

pub open spec fn payloads(m: HnswSqModel, dec: Decoding) -> Seq<Seq<u8>> {
    Seq::new(m.nlist as nat, |i: int| payload(m, dec, i))
}

/// Where the centroids start in a file that starts at `start`.
pub open spec fn centroids_start(d: usize, nlist: usize, start: int) -> int {
    start + 64 + 8 * (d * (nlist + 1))
}

/// Where the lists start in a file that starts at `start`.
pub open spec fn data_start(m: HnswSqModel, start: int) -> int {
    centroids_start(m.d, m.nlist, start) + 4 * (m.nlist * m.d) + 24 * m.nlist
}

/// What the table of the file of an index says.
pub open spec fn stored_table(m: HnswSqModel, dec: Decoding, start: int) -> GraphTable {
    GraphTable {
        offsets: Seq::new(
            m.nlist as nat,
            |i: int| list_table::list_offset(payloads(m, dec), data_start(m, start), i) as i64,
        ),
        counts: Seq::new(m.nlist as nat, |i: int| m.ids[i].len() as i32),
        graph_lens: Seq::new(m.nlist as nat, |i: int| graph_section(m, dec, i).len() as i32),
        tails: Seq::new(m.nlist as nat, |i: int| payload(m, dec, i).len() as i64),
    }
}

pub open spec fn stored_header(m: HnswSqModel) -> GraphHeader {
    GraphHeader {
        d: m.d,
        nlist: m.nlist,
        metric: m.metric,
        total_vectors: ivf_lists::total_rows(m.ids) as i64,
        hnsw_params: m.hnsw_params.spec_sanitized(),
    }
}

pub open spec fn header_bytes(m: HnswSqModel) -> Seq<u8> {
    graph_lists::front_bytes(IVF_HNSW_SQ_MAGIC, IVF_HNSW_SQ_VERSION, stored_header(m))
        + little_endian::u32_bytes(sq::global_bounds(m.sq.mins, m.sq.maxs).0)
        + little_endian::u32_bytes(sq::global_bounds(m.sq.mins, m.sq.maxs).1)
        + little_endian::u32_bytes(REQUIRED_FLAGS) + list_table::zeros(12)
}

pub open spec fn bounds_bytes(b: SqBounds) -> Seq<u8> {
    little_endian::u32_seq_bytes(b.mins) + little_endian::u32_seq_bytes(b.maxs)
}

pub open spec fn list_bounds_parts(m: HnswSqModel) -> Seq<Seq<u8>> {
    Seq::new(m.nlist as nat, |i: int| bounds_bytes(m.list_sqs[i]))
}

/// What stands before the centroids.
pub open spec fn prefix_bytes(m: HnswSqModel) -> Seq<u8> {
    header_bytes(m) + bounds_bytes(m.sq) + wire::concat(list_bounds_parts(m))
}

/// The file of an index that starts at `start`.
pub open spec fn file_bytes(m: HnswSqModel, dec: Decoding, start: int) -> Seq<u8> {
    prefix_bytes(m) + little_endian::u32_seq_bytes(m.centroids) + stored_table(
        m,
        dec,
        start,
    ).bytes() + wire::concat(payloads(m, dec))
}

pub open spec fn list_fits(m: HnswSqModel, dec: Decoding, i: int) -> bool {
    &&& m.ids[i].len() <= i32::MAX
    &&& m.ids[i].len() > 0 ==> {
        &&& id_section(m, i).len() <= i32::MAX
        &&& graph_codec::graph_fits(sorted_graph(m, dec, i))
        &&& graph_section(m, dec, i).len() <= i32::MAX
        &&& payload(m, dec, i).len() <= i64::MAX
    }
}

/// Every number of the file fits into the place that it has.
pub open spec fn fits(m: HnswSqModel, dec: Decoding, start: int) -> bool {
    &&& ivf_lists::total_rows(m.ids) <= i64::MAX
    &&& stored_header(m).fits()
    &&& forall|i: int| 0 <= i < m.nlist ==> #[trigger] list_fits(m, dec, i)
    &&& list_table::offsets_fit(payloads(m, dec), data_start(m, start))
}

/// The number of list `i` that does not fit into its place, the first of several.
pub open spec fn list_exceeds(m: HnswSqModel, dec: Decoding, i: int, e: IndexError) -> bool {
    m.ids[i].len() > 0 && if !graph_codec::graph_fits(sorted_graph(m, dec, i)) {
        graph_codec::graph_exceeds(sorted_graph(m, dec, i), e)
    } else if m.ids[i].len() > i32::MAX {
        e == IndexError::LengthExceedsI32 {
            field: Field::ListCount,
            value: m.ids[i].len() as usize,
        }
    } else if graph_section(m, dec, i).len() > i32::MAX {
        e == IndexError::LengthExceedsI32 {
            field: Field::GraphBytes,
            value: graph_section(m, dec, i).len() as usize,
        }
    } else if id_section(m, i).len() > i32::MAX {
        e == IndexError::LengthExceedsI32 {
            field: Field::IdBytes,
            value: id_section(m, i).len() as usize,
        }
    } else {
        payload(m, dec, i).len() > i64::MAX && e == IndexError::LengthExceedsI64 {
            field: Field::PayloadBytes,
            value: payload(m, dec, i).len() as usize,
        }
    }
}

/// List `i` is the first one that does not fit, because of `e`.
pub open spec fn is_first_large(m: HnswSqModel, dec: Decoding, i: int, e: IndexError) -> bool {
    &&& 0 <= i < m.nlist
    &&& list_exceeds(m, dec, i, e)
    &&& forall|k: int| 0 <= k < i ==> #[trigger] list_fits(m, dec, k)
}

/// The first number of the file that does not fit into its place.
pub open spec fn exceeds(m: HnswSqModel, dec: Decoding, start: int, e: IndexError) -> bool {
    if ivf_lists::total_rows(m.ids) > i64::MAX {
        e == IndexError::TooManyVectors
    } else if exists|i: int| 0 <= i < m.nlist && !#[trigger] list_fits(m, dec, i) {
        exists|i: int| #[trigger] is_first_large(m, dec, i, e)
    } else if !stored_header(m).fits() {
        stored_header(m).exceeds(e)
    } else {
        list_table::offset_exceeds(payloads(m, dec), data_start(m, start), e)
    }
}

/// There is a value for each byte of the codes of list `i`, put into the order of the ids.
pub open spec fn decodes_sorted(m: HnswSqModel, dec: Decoding, i: int) -> bool {
    m.ids[i].len() > 0 ==> dec(i as usize, sorted_codes(m, i)).len() == sorted_codes(m, i).len()
}

/// List `i` as it is stored, with the length of its graph. The rows are put into the order of
/// their ids, and the nodes of the graph are renumbered.
fn build_sorted_sq_graph_list<D: Fn(usize, &Vec<u8>) -> Vec<u32>>(
    index: &IVFHNSWSQIndex,
    decode: &D,
    i: usize,
) -> (r: Result<(Vec<u8>, i32), IndexError>)
    requires
        sq::is_decoder(*decode, index@.nlist as nat),
        shape_ok(index@, sq::decoding(*decode)),
        list_graphs::graphs_well_formed(index@.graphs),
        i < index@.nlist,
    ensures
        match r {
            Ok((bytes, graph_len)) => {
                &&& list_fits(index@, sq::decoding(*decode), i as int)
                &&& decodes_sorted(index@, sq::decoding(*decode), i as int)
                &&& bytes@ == payload(index@, sq::decoding(*decode), i as int)
                &&& graph_len == graph_section(index@, sq::decoding(*decode), i as int).len()
            },
            Err(e) => !list_fits(index@, sq::decoding(*decode), i as int) && list_exceeds(
                index@,
                sq::decoding(*decode),
                i as int,
                e,
            ),
        },
{
    let ghost m = index@;
    let ghost dec = sq::decoding(*decode);
    assert(m.ids[i as int] == index.ids@[i as int]@);
    assert(m.codes[i as int] == index.codes@[i as int]@);
    assert(m.graphs[i as int] == list_graphs::graph_view(index.graphs@[i as int]));
    assert(list_ok(m, dec, i as int));
    let ids: &Vec<i64> = &index.ids[i];
    let count: usize = ids.len();
    let mut bytes: Vec<u8> = Vec::new();
    let source: &HnswGraph = match &index.graphs[i] {
        Some(g) => g,
        None => {
            return Ok((bytes, 0));
        },
    };
    let order: Vec<usize> = ivf_lists::sort_ids(ids);
    let sorted: Vec<i64> = ivf_lists::pick(ids, &order);
    let (base, section) = varint::encode_delta_varint_ids(sorted.as_slice());
    let codes: Vec<u8> = ivf_lists::gather(&index.codes[i], index.sq.code_size(), &order, count);
    let vectors: Vec<u32> = decode(i, &codes);
    proof {
        assert(ids@.len() == ids.len());
        assert(vectors@.len() == vectors.len());
        ivf_lists::lemma_sorted_ids(ids@);
        ivf_lists::lemma_gathered_len(m.codes[i as int], m.d as nat, order@, count as nat);
    }
    let graph: HnswGraph = match graph_reorder::reorder_graph(
        source,
        &order,
        vectors,
        index.d,
        index.metric,
        index.hnsw_params,
    ) {
        Ok(g) => g,
        Err(e) => {
            return Err(e);
        },
    };
    assert(graph@ == sorted_graph(m, dec, i as int));
    proof {
        graph_reorder::reordering_keeps_the_graph(
            source@,
            order@,
            dec(i, sorted_codes(m, i as int)),
            m.d,
            m.metric,
            m.hnsw_params,
        );
    }
    let graph_bytes: Vec<u8> = match graph_codec::encode_graph(Some(&graph)) {
        Ok(v) => v,
        Err(e) => {
            return Err(e);
        },
    };
    match index_io_util::usize_to_i32(count, Field::ListCount) {
        Ok(_) => {},
        Err(e) => {
            return Err(e);
        },
    }
    let graph_len: i32 = match index_io_util::usize_to_i32(graph_bytes.len(), Field::GraphBytes) {
        Ok(v) => v,
        Err(e) => {
            return Err(e);
        },
    };
    let id_len: i32 = match index_io_util::usize_to_i32(section.len(), Field::IdBytes) {
        Ok(v) => v,
        Err(e) => {
            return Err(e);
        },
    };
    little_endian::write_i64_le(&mut bytes, base);
    little_endian::write_i32_le(&mut bytes, id_len);
    list_table::append_bytes(&mut bytes, &section);
    list_table::append_bytes(&mut bytes, &codes);
    list_table::append_bytes(&mut bytes, &graph_bytes);
    assert(bytes@ =~= payload(m, dec, i as int));
    match index_io_util::usize_to_i64(bytes.len(), Field::PayloadBytes) {
        Ok(_) => {},
        Err(e) => {
            return Err(e);
        },
    }
    Ok((bytes, graph_len))
}

/// The lists of an index as they are stored, with the lengths of their graphs.
fn build_lists<D: Fn(usize, &Vec<u8>) -> Vec<u32>>(index: &IVFHNSWSQIndex, decode: &D) -> (r:
    Result<(Vec<Vec<u8>>, Vec<i32>), IndexError>)
    requires
        sq::is_decoder(*decode, index@.nlist as nat),
        shape_ok(index@, sq::decoding(*decode)),
        list_graphs::graphs_well_formed(index@.graphs),
    ensures
        match r {
            Ok((lists, graph_lens)) => {
                &&& forall|i: int|
                    0 <= i < index@.nlist ==> #[trigger] list_fits(
                        index@,
                        sq::decoding(*decode),
                        i,
                    )
                &&& forall|i: int|
                    0 <= i < index@.nlist ==> #[trigger] decodes_sorted(
                        index@,
                        sq::decoding(*decode),
                        i,
                    )
                &&& ivf_lists::byte_lists(lists@) == payloads(index@, sq::decoding(*decode))
                &&& graph_lens@.len() == index@.nlist
                &&& forall|i: int|
                    0 <= i < index@.nlist ==> #[trigger] graph_lens@[i] == graph_section(
                        index@,
                        sq::decoding(*decode),
                        i,
                    ).len()
            },
            Err(e) => exists|i: int|
                0 <= i < index@.nlist && !#[trigger] list_fits(index@, sq::decoding(*decode), i)
                    && is_first_large(index@, sq::decoding(*decode), i, e),
        },
{
    let ghost m = index@;
    let ghost dec = sq::decoding(*decode);
    let mut lists: Vec<Vec<u8>> = Vec::new();
    let mut graph_lens: Vec<i32> = Vec::new();
    for i in 0..index.nlist
        invariant
            m == index@,
            dec == sq::decoding(*decode),
            sq::is_decoder(*decode, m.nlist as nat),
            shape_ok(m, dec),
            list_graphs::graphs_well_formed(m.graphs),
            lists@.len() == i,
            graph_lens@.len() == i,
            forall|k: int| 0 <= k < i ==> #[trigger] list_fits(m, dec, k),
            forall|k: int| 0 <= k < i ==> #[trigger] decodes_sorted(m, dec, k),
            forall|k: int| 0 <= k < i ==> (#[trigger] lists@[k])@ == payload(m, dec, k),
            forall|k: int|
                0 <= k < i ==> #[trigger] graph_lens@[k] == graph_section(m, dec, k).len(),
    {
        match build_sorted_sq_graph_list(index, decode, i) {
            Ok((bytes, graph_len)) => {
                lists.push(bytes);
                graph_lens.push(graph_len);
            },
            Err(e) => {
                assert(!list_fits(m, dec, i as int));
                assert(is_first_large(m, dec, i as int, e));
                return Err(e);
            },
        }
    }
    assert(ivf_lists::byte_lists(lists@) =~= payloads(m, dec));
    Ok((lists, graph_lens))
}

/// The table of the file of an index.
fn build_table(
    index: &IVFHNSWSQIndex,
    lists: &Vec<Vec<u8>>,
    offsets: Vec<i64>,
    graph_lens: Vec<i32>,
    Ghost(dec): Ghost<Decoding>,
    Ghost(start): Ghost<int>,
) -> (r: GraphTableVecs)
    requires
        shape_ok(index@, dec),
        forall|i: int| 0 <= i < index@.nlist ==> #[trigger] list_fits(index@, dec, i),
        ivf_lists::byte_lists(lists@) == payloads(index@, dec),
        offsets@ == stored_table(index@, dec, start).offsets,
        graph_lens@.len() == index@.nlist,
        forall|i: int|
            0 <= i < index@.nlist ==> #[trigger] graph_lens@[i] == graph_section(
                index@,
                dec,
                i,
            ).len(),
    ensures
        r@ == stored_table(index@, dec, start),
        r@.fits(index@.nlist as nat),
{
    let ghost m = index@;
    let mut counts: Vec<i32> = Vec::new();
    let mut tails: Vec<i64> = Vec::new();
    assert(lists@.len() == payloads(m, dec).len());
    for i in 0..index.nlist
        invariant
            m == index@,
            shape_ok(m, dec),
            forall|i: int| 0 <= i < m.nlist ==> #[trigger] list_fits(m, dec, i),
            ivf_lists::byte_lists(lists@) == payloads(m, dec),
            lists@.len() == m.nlist,
            counts@.len() == i,
            tails@.len() == i,
            forall|k: int| 0 <= k < i ==> #[trigger] counts@[k] == m.ids[k].len(),
            forall|k: int| 0 <= k < i ==> #[trigger] tails@[k] == payload(m, dec, k).len(),
    {
        assert(list_fits(m, dec, i as int));
        assert(m.ids[i as int] == index.ids@[i as int]@);
        assert(ivf_lists::byte_lists(lists@)[i as int] == lists@[i as int]@);
        counts.push(index.ids[i].len() as i32);
        tails.push(lists[i].len() as i64);
    }
    let t = GraphTableVecs { offsets, counts, graph_lens, tails };
    proof {
        assert forall|i: int| 0 <= i < m.nlist implies #[trigger] t@.graph_lens[i]
            == stored_table(m, dec, start).graph_lens[i] && t@.graph_lens[i] >= 0 by {
            assert(list_fits(m, dec, i));
        }
        assert forall|i: int| 0 <= i < m.nlist implies #[trigger] t@.counts[i] == stored_table(
            m,
            dec,
            start,
        ).counts[i] by {
            assert(list_fits(m, dec, i));
        }
        assert forall|i: int| 0 <= i < m.nlist implies #[trigger] t@.tails[i] == stored_table(
            m,
            dec,
            start,
        ).tails[i] by {
            assert(list_fits(m, dec, i));
        }
        assert(t@ =~= stored_table(m, dec, start));
    }
    t
}

fn write_bounds(out: &mut Vec<u8>, b: &ScalarQuantizer)
    ensures
        final(out)@ == old(out)@ + bounds_bytes(b@),
{
    little_endian::write_f32_slice(out, b.mins.as_slice());
    little_endian::write_f32_slice(out, b.maxs.as_slice());
    assert(out@ =~= old(out)@ + bounds_bytes(b@));
}

/// Appends what stands before the centroids.
fn write_prefix(index: &IVFHNSWSQIndex, header: &GraphHeader, out: &mut Vec<u8>)
    requires
        bounds_ok(index@),
        *header == stored_header(index@),
        header.fits(),
    ensures
        final(out)@ == old(out)@ + prefix_bytes(index@),
{
    let ghost m = index@;
    let ghost start = out@;
    let (sq_min, sq_max) = sq::sq_global_bounds(&index.sq.mins, &index.sq.maxs);
    graph_lists::write_front(out, IVF_HNSW_SQ_MAGIC, IVF_HNSW_SQ_VERSION, header);
    little_endian::write_u32_le(out, sq_min);
    little_endian::write_u32_le(out, sq_max);
    little_endian::write_u32_le(out, REQUIRED_FLAGS);
    list_table::append_zeros(out, 12);
    assert(out@ =~= start + header_bytes(m));
    write_bounds(out, &index.sq);
    let ghost head = out@;
    let ghost parts = list_bounds_parts(m);
    proof {
        wire::lemma_concat_none(parts);
        assert(head + Seq::<u8>::empty() =~= head);
    }
    for i in 0..index.nlist
        invariant
            m == index@,
            m.list_sqs.len() == m.nlist,
            parts == list_bounds_parts(m),
            out@ == head + wire::concat(parts.take(i as int)),
    {
        assert(m.list_sqs[i as int] == index.list_sqs@[i as int]@);
        let ghost before = out@;
        write_bounds(out, &index.list_sqs[i]);
        proof {
            wire::lemma_concat_next(parts, i as int);
            assert(out@ =~= before + parts[i as int]);
            assert(out@ =~= head + wire::concat(parts.take(i + 1)));
        }
    }
    proof {
        wire::lemma_concat_all(parts);
        assert(out@ =~= start + prefix_bytes(m));
    }
}

/// Appends the file of an index to `out`, where nothing is appended to it if the index is refused.
#[verifier::rlimit(60)]
pub fn write_ivfhnswsq_index<D: Fn(usize, &Vec<u8>) -> Vec<u32>>(
    index: &IVFHNSWSQIndex,
    decode: &D,
    out: &mut Vec<u8>,
) -> (r: Result<(), IndexError>)
    requires
        sq::is_decoder(*decode, index@.nlist as nat),
        list_graphs::graphs_well_formed(index@.graphs),
    ensures
        ({
            let dec = sq::decoding(*decode);
            let start = old(out)@.len() as int;
            match r {
                Ok(_) => {
                    &&& shape_ok(index@, dec)
                    &&& fits(index@, dec, start)
                    &&& forall|i: int|
                        0 <= i < index@.nlist ==> #[trigger] decodes_sorted(index@, dec, i)
                    &&& final(out)@ == old(out)@ + file_bytes(index@, dec, start)
                },
                Err(e) => {
                    &&& final(out)@ == old(out)@
                    &&& if shape_ok(index@, dec) {
                        !fits(index@, dec, start) && exceeds(index@, dec, start, e)
                    } else {
                        shape_refused(index@, dec, e)
                    }
                },
            }
        }),
{
    let ghost m = index@;
    let ghost dec = sq::decoding(*decode);
    let ghost start = out@.len() as int;
    match validate_index_shape(index, decode) {
        Ok(_) => {},
        Err(e) => {
            return Err(e);
        },
    }
    let total: i64 = match ivf_lists::count_rows(&index.ids) {
        Ok(v) => v,
        Err(e) => {
            return Err(e);
        },
    };
    let (lists, graph_lens): (Vec<Vec<u8>>, Vec<i32>) = match build_lists(index, decode) {
        Ok(v) => v,
        Err(e) => {
            return Err(e);
        },
    };
    let header: GraphHeader = match graph_lists::make_header(
        index.d,
        index.nlist,
        index.metric,
        total,
        index.hnsw_params,
    ) {
        Ok(v) => v,
        Err(e) => {
            return Err(e);
        },
    };
    proof {
        assert(m.nlist * m.d == m.d * m.nlist) by (nonlinear_arith);
        assert(m.d * (m.nlist + 1) == m.d * m.nlist + m.d) by (nonlinear_arith);
    }
    let values: u128 = index.quantizer_centroids.len() as u128;
    let wide: u128 = (out.len() as u128) + 64 + 8 * (values + index.d as u128) + 4 * values + 24 * (
    index.nlist as u128);
    assert(wide == data_start(m, start));
    if wide > u64::MAX as u128 {
        proof {
            wire::lemma_concat_none(payloads(m, dec));
            assert(list_table::is_first_too_far(payloads(m, dec), data_start(m, start), 0));
        }
        return Err(IndexError::OffsetExceedsI64 { at: u64::MAX });
    }
    let first: u64 = wide as u64;
    let offsets: Vec<i64> = match list_table::place_lists(&lists, first) {
        Ok(v) => v,
        Err(e) => {
            return Err(e);
        },
    };
    proof {
        assert forall|i: int| 0 <= i < payloads(m, dec).len() implies
            #[trigger] list_table::list_offset(payloads(m, dec), first as int, i) <= i64::MAX by {
            assert(offsets@[i] <= i64::MAX);
        }
        assert(fits(m, dec, start));
        assert(offsets@ =~= stored_table(m, dec, start).offsets);
    }
    let table: GraphTableVecs = build_table(
        index,
        &lists,
        offsets,
        graph_lens,
        Ghost(dec),
        Ghost(start),
    );
    write_prefix(index, &header, out);
    little_endian::write_f32_slice(out, index.quantizer_centroids.as_slice());
    graph_lists::write_table(out, &table, index.nlist);
    list_table::append_lists(out, &lists);
    assert(out@ =~= old(out)@ + file_bytes(m, dec, start));
    Ok(())
}

} // verus!

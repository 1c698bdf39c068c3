//! Files of inverted lists with a graph over each list.
//!
//! A file is a header of 64 bytes, the centroids, a table with 24 bytes for each list (where it
//! starts, how many rows it holds, how long its graph is, eight bytes that are not used), and the
//! lists. A list that is not empty holds its ids, its vectors and its graph; rows are in the order
//! of the index.
use vstd::prelude::*;

use crate::distance::MetricType;
use crate::error::{Field, FileKind, IndexError};
use crate::float_bits;
use crate::graph_codec;
use crate::graph_codec::StoredGraph;
use crate::graph_lists;
use crate::graph_lists::{GraphHeader, GraphTable, GraphTableVecs};
use crate::hnsw;
use crate::hnsw::{GraphModel, HnswBuildParams, HnswGraph};
use crate::hnsw_layer;
use crate::hnsw_search;
use crate::hnsw_search::HnswSearchList;
use crate::index_io_util;
use crate::ivf_lists;
use crate::ivf_search;
use crate::ivfhnswflat::{HnswFlatModel, IVFHNSWFlatIndex};
use crate::list_graphs;
use crate::list_table;
use crate::little_endian;
use crate::row_id_filter::RowIdFilter;
use crate::sort;
use crate::topk::Hit;
use crate::wire;

verus! {

pub const IVF_HNSW_FLAT_MAGIC: u32 = 0x4948464C;

pub const IVF_HNSW_FLAT_VERSION: u32 = 1;

pub const IVF_HNSW_FLAT_HEADER_SIZE: usize = 64;

/// List `i` has its vectors, and a graph over them if it is not empty.
pub open spec fn list_ok(m: HnswFlatModel, i: int) -> bool {
    &&& m.flat.vectors[i].len() == m.flat.ids[i].len() * m.flat.d
    &&& match m.graphs[i] {
        Some(g) => g.levels.len() == m.flat.ids[i].len() && float_bits::same_values(
            g.vectors,
            m.flat.vectors[i],
        ),
        None => m.flat.ids[i].len() == 0,
    }
}

/// List `i` is the first one that is not complete, and `e` says what is wrong with it.
pub open spec fn first_bad_list(m: HnswFlatModel, i: int, e: IndexError) -> bool {
    &&& 0 <= i < m.flat.nlist
    &&& forall|k: int| 0 <= k < i ==> #[trigger] list_ok(m, k)
    &&& if m.flat.ids[i].len() * m.flat.d > usize::MAX {
        e == IndexError::VectorLengthOverflow { file: FileKind::IvfHnswFlat }
    } else if m.flat.vectors[i].len() != m.flat.ids[i].len() * m.flat.d {
        e == IndexError::ListVectorLength {
            list_id: i as usize,
            len: m.flat.vectors[i].len() as usize,
            expected: (m.flat.ids[i].len() * m.flat.d) as usize,
        }
    } else if m.graphs[i] is Some {
        !list_ok(m, i) && e == IndexError::GraphMismatch { file: FileKind::IvfHnswFlat, list_id: i as usize }
    } else {
        m.flat.ids[i].len() > 0 && e == IndexError::GraphNotBuilt { list_id: i as usize }
    }
}

/// What is wrong with the shape of an index, if something is.
pub open spec fn shape_refused(m: HnswFlatModel, e: IndexError) -> bool {
    if m.flat.d == 0 {
        e == IndexError::DimensionZero
    } else if m.flat.nlist == 0 {
        e == IndexError::NlistZero
    } else if m.flat.ids.len() != m.flat.nlist || m.flat.vectors.len() != m.flat.nlist
        || m.graphs.len() != m.flat.nlist {
        e == IndexError::ListStorage { file: FileKind::IvfHnswFlat }
    } else {
        match index_io_util::section_size(m.flat.nlist, m.flat.d) {
            Err(err) => e == err,
            Ok(size) => if m.flat.centroids.len() != size {
                e == IndexError::CentroidLength {
                    file: FileKind::IvfHnswFlat,
                    len: m.flat.centroids.len() as usize,
                    expected: size,
                }
            } else {
                exists|i: int| #[trigger] first_bad_list(m, i, e)
            },
        }
    }
}

/// As many lists, centroids, vectors and graphs as there should be.
pub open spec fn shape_ok(m: HnswFlatModel) -> bool {
    &&& m.flat.d > 0
    &&& m.flat.nlist > 0
    &&& m.flat.ids.len() == m.flat.nlist
    &&& m.flat.vectors.len() == m.flat.nlist
    &&& m.graphs.len() == m.flat.nlist
    &&& m.flat.nlist * m.flat.d <= index_io_util::MAX_SECTION_ELEMENTS
    &&& m.flat.centroids.len() == m.flat.nlist * m.flat.d
    &&& forall|i: int| 0 <= i < m.flat.nlist ==> #[trigger] list_ok(m, i)
}

/// Refuses an index whose parts do not fit each other.
pub fn validate_index_shape(index: &IVFHNSWFlatIndex) -> (r: Result<(), IndexError>)
    ensures
        match r {
            Ok(_) => shape_ok(index@),
            Err(e) => shape_refused(index@, e) && !shape_ok(index@),
        },
{
    let ghost m = index@;
    if index.flat.d == 0 {
        return Err(IndexError::DimensionZero);
    }
    if index.flat.nlist == 0 {
        return Err(IndexError::NlistZero);
    }
    if index.flat.ids.len() != index.flat.nlist || index.flat.vectors.len() != index.flat.nlist
        || index.graphs.len() != index.flat.nlist {
        return Err(IndexError::ListStorage { file: FileKind::IvfHnswFlat });
    }
    let centroid_len: usize = match index_io_util::checked_section_size(
        index.flat.nlist,
        index.flat.d,
    ) {
        Ok(v) => v,
        Err(e) => {
            return Err(e);
        },
    };
    if index.flat.quantizer_centroids.len() != centroid_len {
        return Err(
            IndexError::CentroidLength {
                file: FileKind::IvfHnswFlat,
                len: index.flat.quantizer_centroids.len(),
                expected: centroid_len,
            },
        );
    }
    for i in 0..index.flat.nlist
        invariant
            m == index@,
            m.flat.d > 0,
            m.flat.nlist > 0,
            m.flat.ids.len() == m.flat.nlist,
            m.flat.vectors.len() == m.flat.nlist,
            m.graphs.len() == m.flat.nlist,
            index_io_util::section_size(m.flat.nlist, m.flat.d) == Ok::<usize, IndexError>(
                centroid_len,
            ),
            m.flat.centroids.len() == centroid_len,
            forall|k: int| 0 <= k < i ==> #[trigger] list_ok(m, k),
    {
        assert(m.flat.ids[i as int] == index.flat.ids@[i as int]@);
        assert(m.flat.vectors[i as int] == index.flat.vectors@[i as int]@);
        assert(m.graphs[i as int] == list_graphs::graph_view(index.graphs@[i as int]));
        let stored: usize = index.flat.vectors[i].len();
        let count: usize = index.flat.ids[i].len();
        let expected: usize = match count.checked_mul(index.flat.d) {
            Some(v) => v,
            None => {
                let e = IndexError::VectorLengthOverflow { file: FileKind::IvfHnswFlat };
                assert(m.flat.ids[i as int].len() * m.flat.d != stored);
                assert(first_bad_list(m, i as int, e));
                assert(!list_ok(m, i as int));
                return Err(e);
            },
        };
        if stored != expected {
            let e = IndexError::ListVectorLength { list_id: i, len: stored, expected };
            assert(first_bad_list(m, i as int, e));
            assert(!list_ok(m, i as int));
            return Err(e);
        }
        match &index.graphs[i] {
            Some(graph) => {
                if graph.len() != count || !float_bits::equal_values(
                    graph.vectors(),
                    index.flat.vectors[i].as_slice(),
                ) {
                    let e = IndexError::GraphMismatch { file: FileKind::IvfHnswFlat, list_id: i };
                    assert(first_bad_list(m, i as int, e));
                    return Err(e);
                }
            },
            None => {
                if count > 0 {
                    let e = IndexError::GraphNotBuilt { list_id: i };
                    assert(first_bad_list(m, i as int, e));
                    assert(!list_ok(m, i as int));
                    return Err(e);
                }
            },
        }
    }
    Ok(())
}

/// The graph of list `i` as it is stored.
pub open spec fn graph_section(m: HnswFlatModel, i: int) -> Seq<u8> {
    match m.graphs[i] {
        Some(g) => if m.flat.ids[i].len() == 0 {
            Seq::empty()
        } else {
            graph_codec::graph_bytes(g)
        },
        None => Seq::empty(),
    }
}

/// List `i` as it is stored.
pub open spec fn payload(m: HnswFlatModel, i: int) -> Seq<u8> {
    if m.flat.ids[i].len() == 0 {
        Seq::empty()
    } else {
        little_endian::i64_seq_bytes(m.flat.ids[i]) + little_endian::u32_seq_bytes(
            m.flat.vectors[i],
        ) + graph_section(m, i)
    }
}

pub open spec fn payloads(m: HnswFlatModel) -> Seq<Seq<u8>> {
    Seq::new(m.flat.nlist as nat, |i: int| payload(m, i))
}

/// Where the lists start in a file that starts at `start`.
pub open spec fn data_start(m: HnswFlatModel, start: int) -> int {
    start + 64 + 4 * (m.flat.nlist * m.flat.d) + 24 * m.flat.nlist
}

/// What the table of the file of an index says.
pub open spec fn stored_table(m: HnswFlatModel, start: int) -> GraphTable {
    GraphTable {
        offsets: Seq::new(
            m.flat.nlist as nat,
            |i: int| list_table::list_offset(payloads(m), data_start(m, start), i) as i64,
        ),
        counts: Seq::new(m.flat.nlist as nat, |i: int| m.flat.ids[i].len() as i32),
        graph_lens: Seq::new(m.flat.nlist as nat, |i: int| graph_section(m, i).len() as i32),
        tails: Seq::new(m.flat.nlist as nat, |i: int| 0i64),
    }
}

pub open spec fn stored_header(m: HnswFlatModel) -> GraphHeader {
    GraphHeader {
        d: m.flat.d,
        nlist: m.flat.nlist,
        metric: m.flat.metric,
        total_vectors: ivf_lists::total_rows(m.flat.ids) as i64,
        hnsw_params: m.hnsw_params.spec_sanitized(),
    }
}

pub open spec fn header_bytes(m: HnswFlatModel) -> Seq<u8> {
    graph_lists::front_bytes(IVF_HNSW_FLAT_MAGIC, IVF_HNSW_FLAT_VERSION, stored_header(m))
        + list_table::zeros(24)
}

/// The file of an index that starts at `start`.
pub open spec fn file_bytes(m: HnswFlatModel, start: int) -> Seq<u8> {
    header_bytes(m) + little_endian::u32_seq_bytes(m.flat.centroids) + stored_table(
        m,
        start,
    ).bytes() + wire::concat(payloads(m))
}

pub open spec fn list_fits(m: HnswFlatModel, i: int) -> bool {
    &&& m.flat.ids[i].len() <= i32::MAX
    &&& graph_section(m, i).len() <= i32::MAX
    &&& m.graphs[i] matches Some(g) ==> m.flat.ids[i].len() > 0 ==> graph_codec::graph_fits(g)
}

/// Every number of the file fits into the place that it has.
pub open spec fn fits(m: HnswFlatModel, start: int) -> bool {
    &&& ivf_lists::total_rows(m.flat.ids) <= i64::MAX
    &&& stored_header(m).fits()
    &&& forall|i: int| 0 <= i < m.flat.nlist ==> #[trigger] list_fits(m, i)
    &&& list_table::offsets_fit(payloads(m), data_start(m, start))
}

/// The number of list `i` that does not fit into its place, the first of several.
pub open spec fn list_exceeds(m: HnswFlatModel, i: int, e: IndexError) -> bool {
    let large = m.graphs[i] matches Some(g) && m.flat.ids[i].len() > 0 && !graph_codec::graph_fits(g);
    if large {
        graph_codec::graph_exceeds(m.graphs[i]->0, e)
    } else if m.flat.ids[i].len() > i32::MAX {
        e == IndexError::LengthExceedsI32 {
            field: Field::ListCount,
            value: m.flat.ids[i].len() as usize,
        }
    } else {
        graph_section(m, i).len() > i32::MAX && e == IndexError::LengthExceedsI32 {
            field: Field::GraphBytes,
            value: graph_section(m, i).len() as usize,
        }
    }
}

/// List `i` is the first one that does not fit, because of `e`.
pub open spec fn is_first_large(m: HnswFlatModel, i: int, e: IndexError) -> bool {
    &&& 0 <= i < m.flat.nlist
    &&& list_exceeds(m, i, e)
    &&& forall|k: int| 0 <= k < i ==> #[trigger] list_fits(m, k)
}

/// The first number of the file that does not fit into its place.
pub open spec fn exceeds(m: HnswFlatModel, start: int, e: IndexError) -> bool {
    if ivf_lists::total_rows(m.flat.ids) > i64::MAX {
        e == IndexError::TooManyVectors
    } else if exists|i: int| 0 <= i < m.flat.nlist && !#[trigger] list_fits(m, i) {
        exists|i: int| #[trigger] is_first_large(m, i, e)
    } else if !stored_header(m).fits() {
        stored_header(m).exceeds(e)
    } else {
        list_table::offset_exceeds(payloads(m), data_start(m, start), e)
    }
}

/// List `i` as it is stored, with the length of its graph.
fn build_list(index: &IVFHNSWFlatIndex, i: usize) -> (r: Result<(Vec<u8>, i32), IndexError>)
    requires
        shape_ok(index@),
        list_graphs::graphs_well_formed(index@.graphs),
        i < index@.flat.nlist,
    ensures
        match r {
            Ok((bytes, graph_len)) => {
                &&& list_fits(index@, i as int)
                &&& bytes@ == payload(index@, i as int)
                &&& graph_len == graph_section(index@, i as int).len()
            },
            Err(e) => !list_fits(index@, i as int) && list_exceeds(index@, i as int, e),
        },
{
    let ghost m = index@;
    assert(m.flat.ids[i as int] == index.flat.ids@[i as int]@);
    assert(m.flat.vectors[i as int] == index.flat.vectors@[i as int]@);
    assert(m.graphs[i as int] == list_graphs::graph_view(index.graphs@[i as int]));
    assert(list_ok(m, i as int));
    let ids: &Vec<i64> = &index.flat.ids[i];
    let mut bytes: Vec<u8> = Vec::new();
    if ids.len() == 0 {
        return Ok((bytes, 0));
    }
    let graph_bytes: Vec<u8> = match &index.graphs[i] {
        Some(graph) => match graph_codec::encode_graph(Some(graph)) {
            Ok(v) => v,
            Err(e) => {
                return Err(e);
            },
        },
        None => Vec::new(),
    };
    match index_io_util::usize_to_i32(ids.len(), Field::ListCount) {
        Ok(_) => {},
        Err(e) => {
            return Err(e);
        },
    }
    let graph_len: i32 = match index_io_util::usize_to_i32(graph_bytes.len(), Field::GraphBytes) {
        Ok(v) => v,
        Err(e) => {
            return Err(e);
        },
    };
    little_endian::write_i64_slice(&mut bytes, ids.as_slice());
    little_endian::write_f32_slice(&mut bytes, index.flat.vectors[i].as_slice());
    list_table::append_bytes(&mut bytes, &graph_bytes);
    assert(bytes@ =~= payload(m, i as int));
    Ok((bytes, graph_len))
}

/// The lists of an index as they are stored, with the lengths of their graphs.
fn build_lists(index: &IVFHNSWFlatIndex) -> (r: Result<(Vec<Vec<u8>>, Vec<i32>), IndexError>)
    requires
        shape_ok(index@),
        list_graphs::graphs_well_formed(index@.graphs),
    ensures
        match r {
            Ok((lists, graph_lens)) => {
                &&& forall|i: int| 0 <= i < index@.flat.nlist ==> #[trigger] list_fits(index@, i)
                &&& ivf_lists::byte_lists(lists@) == payloads(index@)
                &&& graph_lens@.len() == index@.flat.nlist
                &&& forall|i: int|
                    0 <= i < index@.flat.nlist ==> #[trigger] graph_lens@[i] == graph_section(
                        index@,
                        i,
                    ).len()
            },
            Err(e) => exists|i: int|
                0 <= i < index@.flat.nlist && !#[trigger] list_fits(index@, i) && is_first_large(
                    index@,
                    i,
                    e,
                ),
        },
{
    let ghost m = index@;
    let mut lists: Vec<Vec<u8>> = Vec::new();
    let mut graph_lens: Vec<i32> = Vec::new();
    for i in 0..index.flat.nlist
        invariant
            m == index@,
            shape_ok(m),
            list_graphs::graphs_well_formed(m.graphs),
            lists@.len() == i,
            graph_lens@.len() == i,
            forall|k: int| 0 <= k < i ==> #[trigger] list_fits(m, k),
            forall|k: int| 0 <= k < i ==> (#[trigger] lists@[k])@ == payload(m, k),
            forall|k: int|
                0 <= k < i ==> #[trigger] graph_lens@[k] == graph_section(m, k).len(),
    {
        match build_list(index, i) {
            Ok((bytes, graph_len)) => {
                lists.push(bytes);
                graph_lens.push(graph_len);
            },
            Err(e) => {
                assert(!list_fits(m, i as int));
                assert(is_first_large(m, i as int, e));
                return Err(e);
            },
        }
    }
    assert(ivf_lists::byte_lists(lists@) =~= payloads(m));
    Ok((lists, graph_lens))
}

/// The table of the file of an index.
fn build_table(
    index: &IVFHNSWFlatIndex,
    offsets: Vec<i64>,
    graph_lens: Vec<i32>,
    Ghost(start): Ghost<int>,
) -> (r: GraphTableVecs)
    requires
        shape_ok(index@),
        forall|i: int| 0 <= i < index@.flat.nlist ==> #[trigger] list_fits(index@, i),
        offsets@ == stored_table(index@, start).offsets,
        graph_lens@.len() == index@.flat.nlist,
        forall|i: int|
            0 <= i < index@.flat.nlist ==> #[trigger] graph_lens@[i] == graph_section(
                index@,
                i,
            ).len(),
    ensures
        r@ == stored_table(index@, start),
        r@.fits(index@.flat.nlist as nat),
{
    let ghost m = index@;
    let mut counts: Vec<i32> = Vec::new();
    let mut tails: Vec<i64> = Vec::new();
    for i in 0..index.flat.nlist
        invariant
            m == index@,
            shape_ok(m),
            forall|i: int| 0 <= i < m.flat.nlist ==> #[trigger] list_fits(m, i),
            counts@.len() == i,
            tails@.len() == i,
            forall|k: int| 0 <= k < i ==> #[trigger] counts@[k] == m.flat.ids[k].len(),
            forall|k: int| 0 <= k < i ==> #[trigger] tails@[k] == 0,
    {
        assert(list_fits(m, i as int));
        assert(m.flat.ids[i as int] == index.flat.ids@[i as int]@);
        counts.push(index.flat.ids[i].len() as i32);
        tails.push(0);
    }
    let t = GraphTableVecs { offsets, counts, graph_lens, tails };
    proof {
        assert forall|i: int| 0 <= i < m.flat.nlist implies #[trigger] t@.graph_lens[i]
            == stored_table(m, start).graph_lens[i] by {
            assert(list_fits(m, i));
        }
        assert(t@ =~= stored_table(m, start));
    }
    t
}

/// Appends the file of an index to `out`, where nothing is appended to it if the index is refused.
#[verifier::rlimit(40)]
pub fn write_ivfhnswflat_index(index: &IVFHNSWFlatIndex, out: &mut Vec<u8>) -> (r: Result<
    (),
    IndexError,
>)
    requires
        list_graphs::graphs_well_formed(index@.graphs),
    ensures
        match r {
            Ok(_) => {
                &&& shape_ok(index@)
                &&& fits(index@, old(out)@.len() as int)
                &&& final(out)@ == old(out)@ + file_bytes(index@, old(out)@.len() as int)
            },
            Err(e) => {
                &&& final(out)@ == old(out)@
                &&& if shape_ok(index@) {
                    !fits(index@, old(out)@.len() as int) && exceeds(
                        index@,
                        old(out)@.len() as int,
                        e,
                    )
                } else {
                    shape_refused(index@, e)
                }
            },
        },
{
    let ghost m = index@;
    let ghost start = out@.len() as int;
    match validate_index_shape(index) {
        Ok(_) => {},
        Err(e) => {
            return Err(e);
        },
    }
    let total: i64 = match ivf_lists::count_rows(&index.flat.ids) {
        Ok(v) => v,
        Err(e) => {
            return Err(e);
        },
    };
    let (lists, graph_lens): (Vec<Vec<u8>>, Vec<i32>) = match build_lists(index) {
        Ok(v) => v,
        Err(e) => {
            return Err(e);
        },
    };
    let header: GraphHeader = match graph_lists::make_header(
        index.flat.d,
        index.flat.nlist,
        index.flat.metric,
        total,
        index.hnsw_params,
    ) {
        Ok(v) => v,
        Err(e) => {
            return Err(e);
        },
    };
    let wide: u128 = (out.len() as u128) + 64 + 4 * (index.flat.quantizer_centroids.len() as u128)
        + 24 * (index.flat.nlist as u128);
    assert(wide == data_start(m, start));
    if wide > u64::MAX as u128 {
        proof {
            wire::lemma_concat_none(payloads(m));
            assert(list_table::is_first_too_far(payloads(m), data_start(m, start), 0));
        }
        return Err(IndexError::OffsetExceedsI64 { at: u64::MAX });
    }
    let first: u64 = wide as u64;
    let offsets: Vec<i64> = match list_table::place_lists(&lists, first) {
        Ok(v) => v,
        Err(e) => {
            return Err(e);
        },
    };
    proof {
        assert forall|i: int| 0 <= i < payloads(m).len() implies
            #[trigger] list_table::list_offset(payloads(m), first as int, i) <= i64::MAX by {
            assert(offsets@[i] <= i64::MAX);
        }
        assert(fits(m, start));
        assert(offsets@ =~= stored_table(m, start).offsets);
    }
    let table: GraphTableVecs = build_table(index, offsets, graph_lens, Ghost(start));
    graph_lists::write_front(out, IVF_HNSW_FLAT_MAGIC, IVF_HNSW_FLAT_VERSION, &header);
    list_table::append_zeros(out, 24);
    assert(out@ =~= old(out)@ + header_bytes(m));
    little_endian::write_f32_slice(out, index.flat.quantizer_centroids.as_slice());
    graph_lists::write_table(out, &table, index.flat.nlist);
    list_table::append_lists(out, &lists);
    assert(out@ =~= old(out)@ + file_bytes(m, start));
    Ok(())
}

/// Reads the header.
pub open spec fn parse_header(s: Seq<u8>) -> Result<GraphHeader, IndexError> {
    match graph_lists::parse_front(
        s,
        FileKind::IvfHnswFlat,
        IVF_HNSW_FLAT_MAGIC,
        IVF_HNSW_FLAT_VERSION,
    ) {
        Err(e) => Err(e),
        Ok(h) => if s.len() < 64 {
            Err(IndexError::UnexpectedEof)
        } else {
            Ok(h)
        },
    }
}

/// What stands between the header and the lists: the centroids and the table.
pub open spec fn parse_section(s: Seq<u8>, d: usize, nlist: usize) -> Result<
    (Seq<u32>, GraphTable),
    IndexError,
> {
    match index_io_util::section_size(nlist, d) {
        Err(e) => Err(e),
        Ok(size) => if s.len() < 4 * size {
            Err(IndexError::UnexpectedEof)
        } else {
            match graph_lists::parse_table(
                s,
                (4 * size) as nat,
                graph_lists::no_table(),
                nlist as nat,
                false,
            ) {
                Err(e) => Err(e),
                Ok(table) => Ok((little_endian::u32_seq_of(s.take(4 * size)), table)),
            }
        },
    }
}

/// How long a list is that holds `count` rows and a graph of `graph_len` bytes.
pub open spec fn payload_len(count: nat, d: usize, graph_len: nat) -> Result<usize, IndexError> {
    if count * 8 > usize::MAX {
        Err(IndexError::ListBytesOverflow)
    } else if d * 4 > usize::MAX {
        Err(IndexError::PayloadOverflow { file: FileKind::IvfHnswFlat })
    } else if count * (d * 4) > usize::MAX {
        Err(IndexError::ListBytesOverflow)
    } else if count * 8 + count * (d * 4) + graph_len > usize::MAX {
        Err(IndexError::PayloadOverflow { file: FileKind::IvfHnswFlat })
    } else {
        Ok((count * 8 + count * (d * 4) + graph_len) as usize)
    }
}

/// How long a list is that holds `count` rows and a graph of `graph_bytes_len` bytes.
pub fn list_payload_len(count: usize, d: usize, graph_bytes_len: usize) -> (r: Result<
    usize,
    IndexError,
>)
    ensures
        r == payload_len(count as nat, d, graph_bytes_len as nat),
{
    let id_bytes: usize = match index_io_util::checked_list_bytes(count, 8) {
        Ok(v) => v,
        Err(e) => {
            return Err(e);
        },
    };
    let row_bytes: usize = match d.checked_mul(4) {
        Some(v) => v,
        None => {
            return Err(IndexError::PayloadOverflow { file: FileKind::IvfHnswFlat });
        },
    };
    let vector_bytes: usize = match index_io_util::checked_list_bytes(count, row_bytes) {
        Ok(v) => v,
        Err(e) => {
            return Err(e);
        },
    };
    match id_bytes.checked_add(vector_bytes) {
        Some(len) => match len.checked_add(graph_bytes_len) {
            Some(v) => Ok(v),
            None => Err(IndexError::PayloadOverflow { file: FileKind::IvfHnswFlat }),
        },
        None => Err(IndexError::PayloadOverflow { file: FileKind::IvfHnswFlat }),
    }
}

/// Where a list stands and how long it is; nothing for an empty list.
pub open spec fn list_place(
    offsets: Seq<i64>,
    counts: Seq<i32>,
    graph_lens: Seq<i32>,
    d: usize,
    nlist: usize,
    list_id: usize,
) -> Result<Option<(u64, usize)>, IndexError> {
    let i = list_id as int;
    if list_id >= nlist {
        Err(IndexError::ListIdRange { list_id, nlist })
    } else if counts[i] == 0 {
        Ok(None)
    } else if offsets[i] < 0 {
        Err(IndexError::NegativeListOffset { offset: offsets[i], list_id })
    } else if graph_lens[i] == 0 {
        Err(IndexError::MissingGraph { list_id })
    } else {
        match payload_len(counts[i] as nat, d, graph_lens[i] as nat) {
            Err(e) => Err(e),
            Ok(len) => Ok(Some((offsets[i] as u64, len))),
        }
    }
}

/// The three parts of a list of `count` rows.
pub open spec fn list_parts(s: Seq<u8>, count: nat, d: nat) -> (Seq<i64>, Seq<u32>, Seq<u8>) {
    let ids_end = (count * 8) as int;
    let vectors_end = (count * 8 + count * (d * 4)) as int;
    (
        little_endian::i64_seq_of(s.take(ids_end)),
        little_endian::u32_seq_of(s.subrange(ids_end, vectors_end)),
        s.skip(vectors_end),
    )
}

/// A list with its graph.
pub struct GraphList {
    pub ids: Vec<i64>,
    pub graph: HnswGraph,
}

/// What the bytes of a list of `count` rows stand for.
pub open spec fn list_read(
    s: Seq<u8>,
    count: usize,
    d: usize,
    metric: MetricType,
    params: HnswBuildParams,
    r: Result<GraphList, IndexError>,
) -> bool {
    let (ids, vectors, graph) = list_parts(s, count as nat, d as nat);
    match graph_codec::parse_graph(graph, count, params) {
        Err(e) => r == Err::<GraphList, IndexError>(e),
        Ok(stored) => match r {
            Ok(list) => {
                &&& list.ids@ == ids
                &&& list.graph@.well_formed()
                &&& list.graph@.d == d
                &&& list.graph@.metric == metric
                &&& list.graph@.vectors == vectors
                &&& list.graph@.levels == stored.levels
                &&& list.graph@.levels.len() == count
                &&& list.graph@.adjacency == stored.adjacency
                &&& list.graph@.entry_point == stored.entry_point
                &&& list.graph@.max_observed_level == stored.max_observed_level
                &&& list.graph@.params == params.spec_sanitized()
            },
            Err(e) => hnsw::parts_refused(
                vectors.len(),
                count,
                d,
                stored.levels,
                stored.adjacency,
                stored.entry_point,
                stored.max_observed_level,
                e,
            ),
        },
    }
}

/// Reads a file of inverted lists with graphs. The bytes are handed in by the caller, who learns
/// from the reader which ones are needed.
pub struct IVFHNSWFlatIndexReader {
    pub d: usize,
    pub nlist: usize,
    pub metric: MetricType,
    pub total_vectors: i64,
    pub hnsw_params: HnswBuildParams,
    pub quantizer_centroids: Vec<u32>,
    pub list_offsets: Vec<i64>,
    pub list_counts: Vec<i32>,
    pub list_graph_bytes_lens: Vec<i32>,
    pub loaded: bool,
}

impl IVFHNSWFlatIndexReader {
    /// Neither centroids nor the table of the lists have been read.
    pub open spec fn nothing_loaded(self) -> bool {
        &&& !self.loaded
        &&& self.quantizer_centroids@.len() == 0
        &&& self.list_offsets@.len() == 0
        &&& self.list_counts@.len() == 0
        &&& self.list_graph_bytes_lens@.len() == 0
    }

    pub open spec fn header(self) -> GraphHeader {
        GraphHeader {
            d: self.d,
            nlist: self.nlist,
            metric: self.metric,
            total_vectors: self.total_vectors,
            hnsw_params: self.hnsw_params,
        }
    }

    /// The sizes in the header are positive; once the table has been loaded it has an entry for
    /// each list, without negative lengths.
    pub open spec fn well_formed(self) -> bool {
        &&& self.header().fits()
        &&& self.loaded ==> {
            &&& self.quantizer_centroids@.len() == self.nlist * self.d
            &&& self.list_offsets@.len() == self.nlist
            &&& self.list_counts@.len() == self.nlist
            &&& self.list_graph_bytes_lens@.len() == self.nlist
            &&& forall|i: int| 0 <= i < self.nlist ==> #[trigger] self.list_counts@[i] >= 0
            &&& forall|i: int|
                0 <= i < self.nlist ==> #[trigger] self.list_graph_bytes_lens@[i] >= 0
        }
    }

    pub open spec fn place(self, list_id: usize) -> Result<Option<(u64, usize)>, IndexError> {
        list_place(
            self.list_offsets@,
            self.list_counts@,
            self.list_graph_bytes_lens@,
            self.d,
            self.nlist,
            list_id,
        )
    }

    /// Opens a file by its header, the first 64 bytes.
    pub fn open(header: &[u8]) -> (r: Result<IVFHNSWFlatIndexReader, IndexError>)
        ensures
            match r {
                Ok(reader) => {
                    &&& parse_header(header@) == Ok::<GraphHeader, IndexError>(reader.header())
                    &&& reader.nothing_loaded()
                    &&& reader.well_formed()
                },
                Err(e) => parse_header(header@) == Err::<GraphHeader, IndexError>(e),
            },
    {
        let h: GraphHeader = match graph_lists::read_front(
            header,
            FileKind::IvfHnswFlat,
            IVF_HNSW_FLAT_MAGIC,
            IVF_HNSW_FLAT_VERSION,
        ) {
            Ok(v) => v,
            Err(e) => {
                return Err(e);
            },
        };
        if header.len() < IVF_HNSW_FLAT_HEADER_SIZE {
            return Err(IndexError::UnexpectedEof);
        }
        Ok(
            IVFHNSWFlatIndexReader {
                d: h.d,
                nlist: h.nlist,
                metric: h.metric,
                total_vectors: h.total_vectors,
                hnsw_params: h.hnsw_params,
                quantizer_centroids: Vec::new(),
                list_offsets: Vec::new(),
                list_counts: Vec::new(),
                list_graph_bytes_lens: Vec::new(),
                loaded: false,
            },
        )
    }

    /// Where the centroids and the table stand, and how long they are together.
    pub fn section_place(&self) -> (r: Result<(u64, usize), IndexError>)
        requires
            self.well_formed(),
        ensures
            match index_io_util::section_size(self.nlist, self.d) {
                Err(e) => r == Err::<(u64, usize), IndexError>(e),
                Ok(size) => if 4 * size + 24 * self.nlist > usize::MAX {
                    r == Err::<(u64, usize), IndexError>(IndexError::SectionSizeOverflow)
                } else {
                    r == Ok::<(u64, usize), IndexError>((64, (4 * size + 24 * self.nlist) as usize))
                },
            },
    {
        match index_io_util::checked_section_size(self.nlist, self.d) {
            Err(e) => Err(e),
            Ok(size) => {
                let len: u128 = 4 * (size as u128) + 24 * (self.nlist as u128);
                if len > usize::MAX as u128 {
                    return Err(IndexError::SectionSizeOverflow);
                }
                Ok((64, len as usize))
            },
        }
    }

    /// Takes in the centroids and the table, unless that was done before. A reader that refuses
    /// them stays as it is.
    pub fn ensure_loaded(&mut self, section: &[u8]) -> (r: Result<(), IndexError>)
        requires
            old(self).well_formed(),
        ensures
            final(self).well_formed(),
            final(self).header() == old(self).header(),
            if old(self).loaded {
                r is Ok && *final(self) == *old(self)
            } else {
                match parse_section(section@, old(self).d, old(self).nlist) {
                    Ok((centroids, table)) => {
                        &&& r is Ok
                        &&& final(self).loaded
                        &&& final(self).quantizer_centroids@ == centroids
                        &&& final(self).list_offsets@ == table.offsets
                        &&& final(self).list_counts@ == table.counts
                        &&& final(self).list_graph_bytes_lens@ == table.graph_lens
                    },
                    Err(e) => r == Err::<(), IndexError>(e) && *final(self) == *old(self),
                }
            },
    {
        if self.loaded {
            return Ok(());
        }
        let size: usize = match index_io_util::checked_section_size(self.nlist, self.d) {
            Ok(v) => v,
            Err(e) => {
                return Err(e);
            },
        };
        let total: usize = section.len();
        if (total as u64) < 4 * (size as u64) {
            return Err(IndexError::UnexpectedEof);
        }
        let centroids: Vec<u32> = index_io_util::patterns_of(
            list_table::part_of(section, 0, 4 * size),
        );
        let table: GraphTableVecs = match graph_lists::read_table(
            section,
            4 * size,
            self.nlist,
            false,
        ) {
            Ok(v) => v,
            Err(e) => {
                return Err(e);
            },
        };
        proof {
            assert(section@.subrange(0, 4 * size) =~= section@.take(4 * size));
            assert(centroids@.len() == size);
            assert forall|i: int| 0 <= i < self.nlist implies #[trigger] table.counts@[i] >= 0 by {
                assert(table@.counts[i] >= 0);
            }
            assert forall|i: int| 0 <= i < self.nlist implies #[trigger] table.graph_lens@[i]
                >= 0 by {
                assert(table@.graph_lens[i] >= 0);
            }
        }
        let GraphTableVecs { offsets, counts, graph_lens, tails: _ } = table;
        self.quantizer_centroids = centroids;
        self.list_offsets = offsets;
        self.list_counts = counts;
        self.list_graph_bytes_lens = graph_lens;
        self.loaded = true;
        Ok(())
    }

    /// Where a list stands and how long it is; nothing for an empty list.
    pub fn list_place(&self, list_id: usize) -> (r: Result<Option<(u64, usize)>, IndexError>)
        requires
            self.well_formed(),
            self.loaded,
        ensures
            r == self.place(list_id),
    {
        if list_id >= self.nlist {
            return Err(IndexError::ListIdRange { list_id, nlist: self.nlist });
        }
        let count: usize = self.list_counts[list_id] as usize;
        if count == 0 {
            return Ok(None);
        }
        let offset: u64 = match index_io_util::checked_list_offset(
            self.list_offsets[list_id],
            list_id,
        ) {
            Ok(v) => v,
            Err(e) => {
                return Err(e);
            },
        };
        let graph_len: usize = self.list_graph_bytes_lens[list_id] as usize;
        if graph_len == 0 {
            return Err(IndexError::MissingGraph { list_id });
        }
        match list_payload_len(count, self.d, graph_len) {
            Ok(len) => Ok(Some((offset, len))),
            Err(e) => Err(e),
        }
    }

    /// The ids and the graph of a list, given the bytes that stand at its place; nothing for an
    /// empty list.
    pub fn read_graph_list(&self, list_id: usize, payload: &[u8]) -> (r: Result<
        Option<GraphList>,
        IndexError,
    >)
        requires
            self.well_formed(),
            self.loaded,
        ensures
            match self.place(list_id) {
                Err(e) => r == Err::<Option<GraphList>, IndexError>(e),
                Ok(None) => r matches Ok(None),
                Ok(Some((_, len))) => if payload@.len() != len {
                    r == Err::<Option<GraphList>, IndexError>(IndexError::UnexpectedEof)
                } else {
                    match r {
                        Ok(Some(list)) => list_read(
                            payload@,
                            self.list_counts@[list_id as int] as usize,
                            self.d,
                            self.metric,
                            self.hnsw_params,
                            Ok(list),
                        ) && list.ids@.len() == self.list_counts@[list_id as int],
                        Ok(None) => false,
                        Err(e) => list_read(
                            payload@,
                            self.list_counts@[list_id as int] as usize,
                            self.d,
                            self.metric,
                            self.hnsw_params,
                            Err(e),
                        ),
                    }
                },
            },
    {
        let len: usize = match self.list_place(list_id) {
            Ok(Some((_, len))) => len,
            Ok(None) => {
                return Ok(None);
            },
            Err(e) => {
                return Err(e);
            },
        };
        if payload.len() != len {
            return Err(IndexError::UnexpectedEof);
        }
        let count: usize = self.list_counts[list_id] as usize;
        let ghost graph_len = self.list_graph_bytes_lens@[list_id as int] as int;
        let ghost rows = count * (self.d * 4);
        proof {
            assert(0 <= rows) by (nonlinear_arith)
                requires
                    0 <= count,
                    0 <= self.d,
                    rows == count * (self.d * 4),
            ;
        }
        let ids_end: usize = count * 8;
        let row_bytes: usize = self.d * 4;
        let vectors_end: usize = ids_end + count * row_bytes;
        let ids: Vec<i64> = little_endian::numbers_of(list_table::part_of(payload, 0, ids_end));
        let vectors: Vec<u32> = index_io_util::patterns_of(
            list_table::part_of(payload, ids_end, vectors_end),
        );
        let graph_bytes: &[u8] = list_table::part_of(payload, vectors_end, payload.len());
        proof {
            assert(payload@.subrange(0, ids_end as int) =~= payload@.take(ids_end as int));
            assert(graph_bytes@ =~= payload@.skip(vectors_end as int));
            assert(graph_bytes@.len() == graph_len);
        }
        match graph_codec::decode_graph(
            graph_bytes,
            vectors,
            count,
            self.d,
            self.metric,
            self.hnsw_params,
        ) {
            Ok(Some(graph)) => Ok(Some(GraphList { ids, graph })),
            Ok(None) => Err(IndexError::MissingGraph { list_id }),
            Err(e) => Err(e),
        }
    }

    /// The ids, the vectors and the graph of a list, given the bytes that stand at its place.
    pub fn read_inverted_list(&self, list_id: usize, payload: &[u8]) -> (r: Result<
        (Vec<i64>, Vec<u32>, Option<HnswGraph>),
        IndexError,
    >)
        requires
            self.well_formed(),
            self.loaded,
        ensures
            match self.place(list_id) {
                Err(e) => r == Err::<(Vec<i64>, Vec<u32>, Option<HnswGraph>), IndexError>(e),
                Ok(None) => r matches Ok((ids, vectors, graph)) && ids@.len() == 0 && vectors@.len()
                    == 0 && graph is None,
                Ok(Some((_, len))) => if payload@.len() != len {
                    r == Err::<(Vec<i64>, Vec<u32>, Option<HnswGraph>), IndexError>(
                        IndexError::UnexpectedEof,
                    )
                } else {
                    match r {
                        Ok((ids, vectors, graph)) => graph matches Some(g) && vectors@
                            == g@.vectors && list_read(
                            payload@,
                            self.list_counts@[list_id as int] as usize,
                            self.d,
                            self.metric,
                            self.hnsw_params,
                            Ok(GraphList { ids, graph: g }),
                        ),
                        Err(e) => list_read(
                            payload@,
                            self.list_counts@[list_id as int] as usize,
                            self.d,
                            self.metric,
                            self.hnsw_params,
                            Err(e),
                        ),
                    }
                },
            },
    {
        match self.read_graph_list(list_id, payload) {
            Err(e) => Err(e),
            Ok(None) => Ok((Vec::new(), Vec::new(), None)),
            Ok(Some(list)) => {
                let GraphList { ids, graph } = list;
                let stored: &[u32] = graph.vectors();
                let mut vectors: Vec<u32> = Vec::new();
                for i in 0..stored.len()
                    invariant
                        vectors@ == stored@.take(i as int),
                {
                    vectors.push(stored[i]);
                    assert(vectors@ =~= stored@.take(i + 1));
                }
                assert(stored@.take(stored@.len() as int) =~= stored@);
                Ok((ids, vectors, Some(graph)))
            },
        }
    }
}

/// The lists, to be searched.
pub open spec fn listed<'a>(lists: Seq<GraphList>) -> Seq<HnswSearchList<'a>> {
    Seq::new(lists.len(), |i: int| HnswSearchList { ids: &lists[i].ids, graph: Some(&lists[i].graph) })
}

/// Every graph is well formed and has a node for each row of its list.
pub open spec fn lists_ok(lists: Seq<GraphList>) -> bool {
    forall|i: int|
        0 <= i < lists.len() ==> (#[trigger] lists[i]).graph@.well_formed()
            && lists[i].graph@.levels.len() == lists[i].ids@.len()
}

fn search_lists(lists: &Vec<GraphList>) -> (r: Vec<HnswSearchList<'_>>)
    requires
        lists_ok(lists@),
    ensures
        r@ == listed(lists@),
        hnsw_search::all_well_formed(r@),
{
    let mut r: Vec<HnswSearchList<'_>> = Vec::new();
    for i in 0..lists.len()
        invariant
            lists_ok(lists@),
            r@ == listed(lists@).take(i as int),
            hnsw_search::all_well_formed(r@),
    {
        let list = HnswSearchList { ids: &lists[i].ids, graph: Some(&lists[i].graph) };
        assert(list@.well_formed());
        r.push(list);
        assert(r@ =~= listed(lists@).take(i + 1));
    }
    assert(r@ =~= listed(lists@));
    r
}

/// Searches lists that were read, for many queries: `lists[i]` is list `loaded[i]`, and each query
/// looks at those that it probes.
pub fn search_batch_ivfhnswflat_reader_filter<T: RowIdFilter, F: Fn(usize, usize, usize) -> u32>(
    probes: &Vec<Vec<usize>>,
    loaded: &Vec<usize>,
    lists: &Vec<GraphList>,
    k: usize,
    ef_search: usize,
    filter: Option<&T>,
    distance: &F,
) -> (r: (Vec<i64>, Vec<u32>))
    requires
        loaded@.len() == lists@.len(),
        lists_ok(lists@),
        ivf_search::gives_batch_distances(
            *distance,
            probes@.len(),
            ivf_search::graph_row_counts(listed(lists@)),
        ),
    ensures
        exists|hits: Seq<Seq<Hit>>|
            #[trigger] ivf_search::queries_searched(
                ivf_search::batch_picks(ivf_search::probe_lists(probes@), loaded@),
                listed(lists@),
                k,
                ef_search,
                filter,
                ivf_search::batch_distances(*distance),
                ivf_search::batch_distances(*distance),
                true,
                hits,
            ) && r.0@ == ivf_search::all_ids(hits, k) && r.1@ == ivf_search::all_dists(hits, k),
{
    let searched: Vec<HnswSearchList<'_>> = search_lists(lists);
    ivf_search::search_hnsw_batch(
        probes,
        loaded,
        &searched,
        k,
        ef_search,
        filter,
        distance,
        distance,
    )
}

/// Searches lists that were read in the order of one query's probes.
pub fn search_with_filter<T: RowIdFilter, F: Fn(usize, usize) -> u32>(
    lists: &Vec<GraphList>,
    k: usize,
    ef_search: usize,
    filter: Option<&T>,
    distance: &F,
) -> (r: (Vec<i64>, Vec<u32>))
    requires
        lists_ok(lists@),
        hnsw_search::rows_agree(
            *distance,
            hnsw_layer::pair_distances(*distance),
            listed(lists@),
        ),
    ensures
        exists|hits: Seq<Hit>|
            #[trigger] hnsw_search::search_outcome(
                listed(lists@),
                sort::positions(0, lists@.len() as int),
                k,
                ef_search,
                filter,
                hnsw_layer::pair_distances(*distance),
                hnsw_layer::pair_distances(*distance),
                false,
                hits,
            ) && r.0@ == ivf_search::padded_ids(hits, k) && r.1@ == ivf_search::padded_dists(
                hits,
                k,
            ),
{
    let searched: Vec<HnswSearchList<'_>> = search_lists(lists);
    ivf_search::search_hnsw_lists(&searched, k, ef_search, filter, distance, distance)
}

proof fn lemma_header(m: HnswFlatModel, start: int)
    requires
        stored_header(m).fits(),
    ensures
        header_bytes(m).len() == 64,
        file_bytes(m, start).len() >= 64,
        file_bytes(m, start).take(64) == header_bytes(m),
        file_bytes(m, start).skip(64) == little_endian::u32_seq_bytes(m.flat.centroids)
            + stored_table(m, start).bytes() + wire::concat(payloads(m)),
        parse_header(header_bytes(m)) == Ok::<GraphHeader, IndexError>(stored_header(m)),
{
    let h = header_bytes(m);
    let front = graph_lists::front_bytes(
        IVF_HNSW_FLAT_MAGIC,
        IVF_HNSW_FLAT_VERSION,
        stored_header(m),
    );
    wire::lemma_occurs_whole(h);
    wire::lemma_occurs_split(h, 0, front, list_table::zeros(24));
    graph_lists::lemma_front_found(
        h,
        FileKind::IvfHnswFlat,
        IVF_HNSW_FLAT_MAGIC,
        IVF_HNSW_FLAT_VERSION,
        stored_header(m),
    );
    let s = file_bytes(m, start);
    assert(s.take(64) =~= h);
    assert(s.skip(64) =~= little_endian::u32_seq_bytes(m.flat.centroids) + stored_table(
        m,
        start,
    ).bytes() + wire::concat(payloads(m)));
}

proof fn lemma_table_fits(m: HnswFlatModel, start: int)
    requires
        fits(m, start),
    ensures
        stored_table(m, start).fits(m.flat.nlist as nat),
{
    assert forall|i: int| 0 <= i < m.flat.nlist implies #[trigger] stored_table(m, start).counts[i]
        >= 0 by {
        assert(list_fits(m, i));
    }
    assert forall|i: int| 0 <= i < m.flat.nlist implies #[trigger] stored_table(
        m,
        start,
    ).graph_lens[i] >= 0 by {
        assert(list_fits(m, i));
    }
}

proof fn lemma_section(m: HnswFlatModel)
    requires
        shape_ok(m),
        fits(m, 0),
    ensures
        parse_section(file_bytes(m, 0).skip(64), m.flat.d, m.flat.nlist) == Ok::<
            (Seq<u32>, GraphTable),
            IndexError,
        >((m.flat.centroids, stored_table(m, 0))),
{
    let centroids = little_endian::u32_seq_bytes(m.flat.centroids);
    let t = stored_table(m, 0);
    let lists = wire::concat(payloads(m));
    lemma_header(m, 0);
    lemma_table_fits(m, 0);
    let rest = file_bytes(m, 0).skip(64);
    little_endian::lemma_u32_seq_bytes_len(m.flat.centroids);
    little_endian::u32_seq_round_trip(m.flat.centroids);
    wire::lemma_occurs_whole(rest);
    wire::lemma_occurs_split(rest, 0, centroids + t.bytes(), lists);
    wire::lemma_occurs_split(rest, 0, centroids, t.bytes());
    assert(rest.take(4 * (m.flat.nlist * m.flat.d)) =~= centroids);
    assert(t.prefix(0) =~= graph_lists::no_table());
    graph_lists::lemma_table_found(
        rest,
        centroids.len() as int,
        t,
        m.flat.nlist as nat,
        false,
        0,
    );
}

/// What list `i` reads back as.
pub open spec fn list_reads_back(m: HnswFlatModel, i: int, g: GraphModel) -> bool {
    let s = payload(m, i);
    let params = m.hnsw_params.spec_sanitized();
    let count = m.flat.ids[i].len();
    let stored = StoredGraph {
        levels: g.levels,
        adjacency: graph_codec::sorted_adjacency(g.adjacency),
        entry_point: g.entry_point,
        max_observed_level: g.max_observed_level,
    };
    &&& list_parts(s, count, m.flat.d as nat) == (
        m.flat.ids[i],
        m.flat.vectors[i],
        graph_codec::graph_bytes(g),
    )
    &&& graph_codec::parse_graph(graph_codec::graph_bytes(g), count as usize, params) == Ok::<
        StoredGraph,
        IndexError,
    >(stored)
    &&& forall|e: IndexError|
        !#[trigger] hnsw::parts_refused(
            m.flat.vectors[i].len(),
            count as usize,
            m.flat.d,
            stored.levels,
            stored.adjacency,
            stored.entry_point,
            stored.max_observed_level,
            e,
        )
}

proof fn lemma_payload(m: HnswFlatModel, i: int)
    requires
        shape_ok(m),
        list_graphs::graphs_well_formed(m.graphs),
        0 <= i < m.flat.nlist,
        list_fits(m, i),
        m.flat.ids[i].len() > 0,
        graph_codec::within_limits(m.graphs[i]->0, m.hnsw_params.spec_sanitized()),
        payload(m, i).len() <= usize::MAX,
    ensures
        payload(m, i).len() == m.flat.ids[i].len() * 8 + m.flat.ids[i].len() * (m.flat.d * 4)
            + graph_section(m, i).len(),
        graph_section(m, i).len() > 0,
        list_reads_back(m, i, m.graphs[i]->0),
{
    let s = payload(m, i);
    let count = m.flat.ids[i].len();
    let g = m.graphs[i]->0;
    assert(list_ok(m, i));
    let a = little_endian::i64_seq_bytes(m.flat.ids[i]);
    let b = little_endian::u32_seq_bytes(m.flat.vectors[i]);
    let c = graph_codec::graph_bytes(g);
    little_endian::lemma_i64_seq_bytes_len(m.flat.ids[i]);
    little_endian::lemma_u32_seq_bytes_len(m.flat.vectors[i]);
    assert(count * (m.flat.d * 4) == 4 * (count * m.flat.d)) by (nonlinear_arith);
    assert(g.d == m.flat.d) by (nonlinear_arith)
        requires
            count * g.d == count * m.flat.d,
            count > 0,
    ;
    let ids_end = (count * 8) as int;
    let vectors_end = (count * 8 + count * (m.flat.d * 4)) as int;
    assert(s.take(ids_end) =~= a);
    assert(s.subrange(ids_end, vectors_end) =~= b);
    assert(s.skip(vectors_end) =~= c);
    little_endian::i64_seq_round_trip(m.flat.ids[i]);
    little_endian::u32_seq_round_trip(m.flat.vectors[i]);
    graph_codec::graph_round_trip(g, m.hnsw_params.spec_sanitized());
}

/// An index that was written to a file of its own reads back: its header, its centroids, and of
/// each list the place and, from the bytes at that place, the ids, the vectors, and a graph with
/// the same levels and the same neighbours.
pub open spec fn reads_back(m: HnswFlatModel, i: usize) -> bool {
    let s = file_bytes(m, 0);
    let t = stored_table(m, 0);
    let place = list_place(
        t.offsets,
        t.counts,
        t.graph_lens,
        m.flat.d,
        m.flat.nlist,
        i,
    );
    &&& parse_header(s.take(64)) == Ok::<GraphHeader, IndexError>(stored_header(m))
    &&& parse_section(s.skip(64), m.flat.d, m.flat.nlist) == Ok::<
        (Seq<u32>, GraphTable),
        IndexError,
    >((m.flat.centroids, t))
    &&& if m.flat.ids[i as int].len() == 0 {
        place == Ok::<Option<(u64, usize)>, IndexError>(None)
    } else {
        &&& place == Ok::<Option<(u64, usize)>, IndexError>(
            Some((t.offsets[i as int] as u64, payload(m, i as int).len() as usize)),
        )
        &&& wire::occurs(s, t.offsets[i as int] as int, payload(m, i as int))
        &&& list_reads_back(m, i as int, m.graphs[i as int]->0)
    }
}

/// Every index of a good shape that fits into a file, with graphs that keep to the limits, reads back
/// from one of its own.
pub proof fn hnsw_flat_file_round_trip(m: HnswFlatModel, i: usize)
    requires
        shape_ok(m),
        list_graphs::graphs_well_formed(m.graphs),
        fits(m, 0),
        i < m.flat.nlist,
        payload(m, i as int).len() <= usize::MAX,
        m.flat.ids[i as int].len() > 0 ==> graph_codec::within_limits(
            m.graphs[i as int]->0,
            m.hnsw_params.spec_sanitized(),
        ),
    ensures
        reads_back(m, i),
{
    lemma_header(m, 0);
    lemma_section(m);
    lemma_file_list(m, i);
}

proof fn lemma_file_list(m: HnswFlatModel, i: usize)
    requires
        shape_ok(m),
        list_graphs::graphs_well_formed(m.graphs),
        fits(m, 0),
        i < m.flat.nlist,
        payload(m, i as int).len() <= usize::MAX,
        m.flat.ids[i as int].len() > 0 ==> graph_codec::within_limits(
            m.graphs[i as int]->0,
            m.hnsw_params.spec_sanitized(),
        ),
    ensures
        ({
            let s = file_bytes(m, 0);
            let t = stored_table(m, 0);
            let place = list_place(
                t.offsets,
                t.counts,
                t.graph_lens,
                m.flat.d,
                m.flat.nlist,
                i,
            );
            if m.flat.ids[i as int].len() == 0 {
                place == Ok::<Option<(u64, usize)>, IndexError>(None)
            } else {
                &&& place == Ok::<Option<(u64, usize)>, IndexError>(
                    Some((t.offsets[i as int] as u64, payload(m, i as int).len() as usize)),
                )
                &&& wire::occurs(s, t.offsets[i as int] as int, payload(m, i as int))
                &&& list_reads_back(m, i as int, m.graphs[i as int]->0)
            }
        }),
{
    assert(list_fits(m, i as int));
    assert(list_table::list_offset(payloads(m), data_start(m, 0), i as int) <= i64::MAX);
    if m.flat.ids[i as int].len() > 0 {
        lemma_payload(m, i as int);
        lemma_list_place(m, i);
        lemma_list_occurs(m, i as int);
    }
}

proof fn lemma_list_occurs(m: HnswFlatModel, i: int)
    requires
        shape_ok(m),
        fits(m, 0),
        0 <= i < m.flat.nlist,
    ensures
        wire::occurs(
            file_bytes(m, 0),
            list_table::list_offset(payloads(m), data_start(m, 0), i),
            payload(m, i),
        ),
{
    let s = file_bytes(m, 0);
    let head = header_bytes(m);
    let centroids = little_endian::u32_seq_bytes(m.flat.centroids);
    let t = stored_table(m, 0);
    let lists = wire::concat(payloads(m));
    lemma_header(m, 0);
    little_endian::lemma_u32_seq_bytes_len(m.flat.centroids);
    graph_lists::lemma_table_len(t, 0);
    wire::lemma_occurs_whole(s);
    wire::lemma_occurs_split(s, 0, head + centroids + t.bytes(), lists);
    wire::lemma_concat_part(s, data_start(m, 0), payloads(m), i);
}

proof fn lemma_list_place(m: HnswFlatModel, i: usize)
    requires
        i < m.flat.nlist,
        m.flat.ids[i as int].len() > 0,
        list_fits(m, i as int),
        payload(m, i as int).len() <= usize::MAX,
        payload(m, i as int).len() == m.flat.ids[i as int].len() * 8 + m.flat.ids[i as int].len()
            * (m.flat.d * 4) + graph_section(m, i as int).len(),
        graph_section(m, i as int).len() > 0,
        0 <= list_table::list_offset(payloads(m), data_start(m, 0), i as int) <= i64::MAX,
    ensures
        ({
            let t = stored_table(m, 0);
            list_place(t.offsets, t.counts, t.graph_lens, m.flat.d, m.flat.nlist, i) == Ok::<
                Option<(u64, usize)>,
                IndexError,
            >(Some((t.offsets[i as int] as u64, payload(m, i as int).len() as usize)))
        }),
{
    let count = m.flat.ids[i as int].len();
    assert(count * (m.flat.d * 4) >= m.flat.d * 4) by (nonlinear_arith)
        requires
            count >= 1,
            m.flat.d >= 0,
    ;
}

} // verus!

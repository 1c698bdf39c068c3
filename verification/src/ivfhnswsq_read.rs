//! Reading files of inverted lists of codes with a graph over each list.
use vstd::prelude::*;

use crate::distance::MetricType;
use crate::error::{FileKind, IndexError};
use crate::graph_codec;
use crate::graph_lists;
use crate::graph_lists::{GraphHeader, GraphTable, GraphTableVecs};
use crate::hnsw;
use crate::hnsw::{HnswBuildParams, HnswGraph};
use crate::hnsw_layer;
use crate::hnsw_search;
use crate::hnsw_search::HnswSearchList;
use crate::index_io_util;
use crate::ivf_search;
use crate::ivfhnswsq;
use crate::ivfhnswsq_io;
use crate::list_table;
use crate::little_endian;
use crate::read_plan;
use crate::read_plan::{RangeModel, ReadRange};
use crate::row_id_filter::RowIdFilter;
use crate::sort;
use crate::sq;
use crate::sq::{ScalarQuantizer, SqBounds};
use crate::topk::Hit;
use crate::varint;

verus! {

/// What the header of a file says.
pub struct SqHeader {
    pub front: GraphHeader,
    pub sq_min: u32,
    pub sq_max: u32,
}

/// Reads the header: what comes behind the front must be known.
pub open spec fn parse_header(s: Seq<u8>) -> Result<SqHeader, IndexError> {
    match graph_lists::parse_front(
        s,
        FileKind::IvfHnswSq,
        ivfhnswsq_io::IVF_HNSW_SQ_MAGIC,
        ivfhnswsq_io::IVF_HNSW_SQ_VERSION,
    ) {
        Err(e) => Err(e),
        Ok(front) => {
            let flags = little_endian::u32_at(s, 48);
            if s.len() < 64 {
                Err(IndexError::UnexpectedEof)
            } else if !index_io_util::all_zero(s.subrange(52, 64)) {
                Err(IndexError::ReservedBytes)
            } else if flags >= 4 {
                Err(IndexError::FileFlags { file: FileKind::IvfHnswSq, flags: (flags - flags % 4) as u32 })
            } else if flags != 3 {
                Err(IndexError::FileFlagsMissing { file: FileKind::IvfHnswSq })
            } else {
                Ok(
                    SqHeader {
                        front,
                        sq_min: little_endian::u32_at(s, 40),
                        sq_max: little_endian::u32_at(s, 44),
                    },
                )
            }
        },
    }
}

fn read_header(header: &[u8]) -> (r: Result<SqHeader, IndexError>)
    ensures
        r == parse_header(header@),
        r matches Ok(h) ==> h.front.fits() && header@.len() >= 64,
{
    let front: GraphHeader = match graph_lists::read_front(
        header,
        FileKind::IvfHnswSq,
        ivfhnswsq_io::IVF_HNSW_SQ_MAGIC,
        ivfhnswsq_io::IVF_HNSW_SQ_VERSION,
    ) {
        Ok(v) => v,
        Err(e) => {
            return Err(e);
        },
    };
    if header.len() < 64 {
        return Err(IndexError::UnexpectedEof);
    }
    match index_io_util::validate_reserved_zero(list_table::part_of(header, 52, 64)) {
        Ok(_) => {},
        Err(e) => {
            return Err(e);
        },
    }
    let flags: u32 = little_endian::read_u32_le(header, 48);
    if flags >= 4 {
        return Err(IndexError::FileFlags { file: FileKind::IvfHnswSq, flags: flags - flags % 4 });
    }
    if flags != ivfhnswsq_io::REQUIRED_FLAGS {
        return Err(IndexError::FileFlagsMissing { file: FileKind::IvfHnswSq });
    }
    Ok(
        SqHeader {
            front,
            sq_min: little_endian::read_u32_le(header, 40),
            sq_max: little_endian::read_u32_le(header, 44),
        },
    )
}

/// The bounds, if they are finite.
pub open spec fn checked_bounds(b: SqBounds) -> Result<SqBounds, IndexError> {
    if b.valid(b.d) {
        Ok(b)
    } else {
        Err(
            IndexError::SqBoundsNotFinite { place: choose|p: usize| sq::first_bad_bound(b, p) },
        )
    }
}

/// The bounds at `pos`.
pub open spec fn bounds_at(s: Seq<u8>, pos: int, d: usize) -> SqBounds {
    SqBounds {
        d,
        mins: little_endian::u32_seq_of(s.subrange(pos, pos + 4 * d)),
        maxs: little_endian::u32_seq_of(s.subrange(pos + 4 * d, pos + 8 * d)),
    }
}

pub open spec fn parse_bounds(s: Seq<u8>, pos: int, d: usize) -> Result<SqBounds, IndexError> {
    if s.len() < pos + 8 * d {
        Err(IndexError::UnexpectedEof)
    } else {
        checked_bounds(bounds_at(s, pos, d))
    }
}

/// Reads the bounds of lists from `pos` on until there are `nlist`, `got` being those before.
pub open spec fn parse_list_bounds(
    s: Seq<u8>,
    pos: int,
    got: Seq<SqBounds>,
    d: usize,
    nlist: nat,
) -> Result<Seq<SqBounds>, IndexError>
    decreases nlist - got.len(),
{
    if got.len() >= nlist {
        Ok(got)
    } else {
        match parse_bounds(s, pos, d) {
            Err(e) => Err(e),
            Ok(b) => parse_list_bounds(s, pos + 8 * d, got.push(b), d, nlist),
        }
    }
}

/// What stands before the centroids.
pub struct SqPrefix {
    pub header: SqHeader,
    pub sq: SqBounds,
    pub list_sqs: Seq<SqBounds>,
}

/// Reads what stands before the centroids. The bounds in the header must be those of the quantizer.
pub open spec fn parse_prefix(s: Seq<u8>) -> Result<SqPrefix, IndexError> {
    match parse_header(s) {
        Err(e) => Err(e),
        Ok(h) => match parse_bounds(s, 64, h.front.d) {
            Err(e) => Err(e),
            Ok(b) => if sq::global_bounds(b.mins, b.maxs) != (h.sq_min, h.sq_max) {
                Err(IndexError::SqSummary)
            } else {
                match parse_list_bounds(
                    s,
                    64 + 8 * h.front.d,
                    Seq::empty(),
                    h.front.d,
                    h.front.nlist as nat,
                ) {
                    Err(e) => Err(e),
                    Ok(list_sqs) => Ok(SqPrefix { header: h, sq: b, list_sqs }),
                }
            },
        },
    }
}

fn read_bounds(s: &[u8], pos: usize, d: usize) -> (r: Result<ScalarQuantizer, IndexError>)
    requires
        pos <= s@.len(),
        d <= i32::MAX,
    ensures
        match r {
            Ok(b) => parse_bounds(s@, pos as int, d) == Ok::<SqBounds, IndexError>(b@) && b@.d == d
                && b@.valid(d) && pos + 8 * d <= s@.len(),
            Err(e) => parse_bounds(s@, pos as int, d) == Err::<SqBounds, IndexError>(e),
        },
{
    let total: usize = s.len();
    if ((total - pos) as u64) < 8 * (d as u64) {
        return Err(IndexError::UnexpectedEof);
    }
    let mins: Vec<u32> = index_io_util::patterns_of(list_table::part_of(s, pos, pos + 4 * d));
    let maxs: Vec<u32> = index_io_util::patterns_of(
        list_table::part_of(s, pos + 4 * d, pos + 8 * d),
    );
    let ghost b = bounds_at(s@, pos as int, d);
    match sq::validate_sq_bounds(d, &mins, &maxs) {
        Ok(_) => Ok(ScalarQuantizer::with_dimension_bounds(d, mins, maxs)),
        Err(e) => {
            proof {
                assert(b.mins.len() == d);
                assert(b.maxs.len() == d);
                let place = e->SqBoundsNotFinite_place;
                assert(sq::first_bad_bound(b, place));
                let other = choose|p: usize| sq::first_bad_bound(b, p);
                if other < place {
                    assert(b.mins.take(place as int)[other as int] == b.mins[other as int]);
                    assert(b.maxs.take(place as int)[other as int] == b.maxs[other as int]);
                }
                if place < other {
                    assert(b.mins.take(other as int)[place as int] == b.mins[place as int]);
                    assert(b.maxs.take(other as int)[place as int] == b.maxs[place as int]);
                }
            }
            Err(e)
        },
    }
}

fn read_list_bounds(s: &[u8], start: usize, d: usize, nlist: usize) -> (r: Result<
    Vec<ScalarQuantizer>,
    IndexError,
>)
    requires
        start <= s@.len(),
        d <= i32::MAX,
    ensures
        match r {
            Ok(list) => {
                &&& parse_list_bounds(s@, start as int, Seq::empty(), d, nlist as nat) == Ok::<
                    Seq<SqBounds>,
                    IndexError,
                >(ivfhnswsq::bounds_of(list@))
                &&& list@.len() == nlist
                &&& forall|i: int|
                    0 <= i < nlist ==> (#[trigger] list@[i])@.d == d && list@[i]@.valid(d)
            },
            Err(e) => parse_list_bounds(s@, start as int, Seq::empty(), d, nlist as nat) == Err::<
                Seq<SqBounds>,
                IndexError,
            >(e),
        },
{
    let mut list: Vec<ScalarQuantizer> = Vec::new();
    let mut pos: usize = start;
    assert(ivfhnswsq::bounds_of(list@) =~= Seq::<SqBounds>::empty());
    for i in 0..nlist
        invariant
            d <= i32::MAX,
            start <= pos <= s@.len(),
            list@.len() == i,
            forall|k: int| 0 <= k < i ==> (#[trigger] list@[k])@.d == d && list@[k]@.valid(d),
            parse_list_bounds(s@, start as int, Seq::empty(), d, nlist as nat)
                == parse_list_bounds(
                s@,
                pos as int,
                ivfhnswsq::bounds_of(list@),
                d,
                nlist as nat,
            ),
    {
        let b: ScalarQuantizer = match read_bounds(s, pos, d) {
            Ok(v) => v,
            Err(e) => {
                return Err(e);
            },
        };
        let ghost before = ivfhnswsq::bounds_of(list@);
        let ghost added = b@;
        list.push(b);
        assert(s@.len() == s.len());
        pos = pos + 8 * d;
        assert(ivfhnswsq::bounds_of(list@) =~= before.push(added));
    }
    Ok(list)
}

/// What stands between the bounds and the lists: the centroids and the table.
pub open spec fn parse_section(s: Seq<u8>, d: usize, nlist: usize) -> Result<
    (Seq<u32>, GraphTable),
    IndexError,
> {
    match index_io_util::section_size(nlist, d) {
        Err(e) => Err(e),
        Ok(size) => if s.len() < 4 * size {
            Err(IndexError::UnexpectedEof)
        } else {
            match graph_lists::parse_table(
                s,
                (4 * size) as nat,
                graph_lists::no_table(),
                nlist as nat,
                true,
            ) {
                Err(e) => Err(e),
                Ok(table) => Ok((little_endian::u32_seq_of(s.take(4 * size)), table)),
            }
        },
    }
}

/// Where a list stands, how many rows it has and how long it is.
#[derive(Debug, Clone, Copy, PartialEq, Eq, Structural)]
pub struct ListPayloadMeta {
    pub list_id: usize,
    pub offset: u64,
    pub count: usize,
    pub payload_len: usize,
}

/// What the table says of a list; nothing for an empty one.
pub open spec fn payload_meta(t: GraphTable, nlist: usize, list_id: usize) -> Result<
    Option<ListPayloadMeta>,
    IndexError,
> {
    let i = list_id as int;
    let payload_len = t.tails[i] as usize;
    if list_id >= nlist {
        Err(IndexError::ListIdRange { list_id, nlist })
    } else if t.counts[i] == 0 {
        Ok(None)
    } else if t.offsets[i] < 0 {
        Err(IndexError::NegativeListOffset { offset: t.offsets[i], list_id })
    } else if t.graph_lens[i] == 0 {
        Err(IndexError::MissingGraph { list_id })
    } else if payload_len == 0 {
        Err(IndexError::MissingPayloadLength { list_id })
    } else if payload_len < 12 + t.graph_lens[i] {
        Err(
            IndexError::PayloadTooShort {
                list_id,
                len: payload_len,
                expected: (12 + t.graph_lens[i]) as usize,
            },
        )
    } else {
        Ok(
            Some(
                ListPayloadMeta {
                    list_id,
                    offset: t.offsets[i] as u64,
                    count: t.counts[i] as usize,
                    payload_len,
                },
            ),
        )
    }
}

/// A list of codes with its graph.
pub struct SqGraphList {
    pub ids: Vec<i64>,
    pub codes: Vec<u8>,
    pub graph: HnswGraph,
}

/// The parts of a list: its ids, its codes and its graph section.
pub open spec fn payload_parts(s: Seq<u8>, meta: ListPayloadMeta, d: usize) -> Result<
    (Seq<i64>, Seq<u8>, Seq<u8>),
    IndexError,
> {
    let list_id = meta.list_id;
    let id_len = little_endian::i32_at(s, 8);
    let ids_end = 12 + id_len;
    let codes_end = ids_end + meta.count * d;
    if s.len() != meta.payload_len {
        Err(
            IndexError::PayloadLength {
                list_id,
                len: s.len() as usize,
                expected: meta.payload_len,
            },
        )
    } else if s.len() < 12 {
        Err(IndexError::UnexpectedEof)
    } else if id_len < 0 {
        Err(IndexError::NegativeIdBytes { found: id_len, list_id })
    } else if meta.count * d > usize::MAX {
        Err(IndexError::ListBytesOverflow)
    } else if codes_end > usize::MAX {
        Err(IndexError::PayloadOverflow { file: FileKind::IvfHnswSq })
    } else if codes_end > s.len() {
        Err(IndexError::CodesTruncated { list_id })
    } else {
        match varint::ids_of_section(
            s.subrange(12, ids_end),
            little_endian::i64_at(s, 0),
            meta.count as nat,
        ) {
            Err(e) => Err(e),
            Ok(ids) => Ok((ids, s.subrange(ids_end, codes_end), s.skip(codes_end))),
        }
    }
}

/// What the bytes of a list stand for, given what its codes are decoded to.
pub open spec fn list_read(
    s: Seq<u8>,
    meta: ListPayloadMeta,
    d: usize,
    metric: MetricType,
    params: HnswBuildParams,
    dec: ivfhnswsq_io::Decoding,
    r: Result<SqGraphList, IndexError>,
) -> bool {
    match payload_parts(s, meta, d) {
        Err(e) => r == Err::<SqGraphList, IndexError>(e),
        Ok((ids, codes, graph)) => {
            let vectors = dec(meta.list_id, codes);
            if graph.len() == 0 {
                r == Err::<SqGraphList, IndexError>(
                    IndexError::MissingGraph { list_id: meta.list_id },
                )
            } else {
                match graph_codec::parse_graph(graph, meta.count, params) {
                    Err(e) => r == Err::<SqGraphList, IndexError>(e),
                    Ok(stored) => match r {
                        Ok(list) => {
                            &&& list.ids@ == ids
                            &&& list.ids@.len() == meta.count
                            &&& list.codes@ == codes
                            &&& list.graph@.well_formed()
                            &&& list.graph@.d == d
                            &&& list.graph@.metric == metric
                            &&& list.graph@.vectors == vectors
                            &&& list.graph@.levels == stored.levels
                            &&& list.graph@.levels.len() == meta.count
                            &&& list.graph@.adjacency == stored.adjacency
                            &&& meta.count > 0 ==> list.graph@.entry_point == stored.entry_point
                            &&& meta.count > 0 ==> list.graph@.max_observed_level
                                == stored.max_observed_level
                            &&& list.graph@.params == params.spec_sanitized()
                        },
                        Err(e) => hnsw::parts_refused(
                            vectors.len(),
                            meta.count,
                            d,
                            stored.levels,
                            stored.adjacency,
                            stored.entry_point,
                            stored.max_observed_level,
                            e,
                        ),
                    },
                }
            }
        },
    }
}

/// Reads a file of inverted lists of codes with graphs. The bytes are handed in by the caller, who
/// learns from the reader which ones are needed.
pub struct IVFHNSWSQIndexReader {
    pub d: usize,
    pub nlist: usize,
    pub metric: MetricType,
    pub total_vectors: i64,
    pub hnsw_params: HnswBuildParams,
    pub sq: ScalarQuantizer,
    pub list_sqs: Vec<ScalarQuantizer>,
    pub quantizer_centroids: Vec<u32>,
    pub list_offsets: Vec<i64>,
    pub list_counts: Vec<i32>,
    pub list_graph_bytes_lens: Vec<i32>,
    pub list_payload_bytes_lens: Vec<i64>,
    pub loaded: bool,
}

impl IVFHNSWSQIndexReader {
    /// Neither centroids nor the table of the lists have been read.
    pub open spec fn nothing_loaded(self) -> bool {
        &&& !self.loaded
        &&& self.quantizer_centroids@.len() == 0
        &&& self.list_offsets@.len() == 0
        &&& self.list_counts@.len() == 0
        &&& self.list_graph_bytes_lens@.len() == 0
        &&& self.list_payload_bytes_lens@.len() == 0
    }

    pub open spec fn header(self) -> GraphHeader {
        GraphHeader {
            d: self.d,
            nlist: self.nlist,
            metric: self.metric,
            total_vectors: self.total_vectors,
            hnsw_params: self.hnsw_params,
        }
    }

    pub open spec fn table(self) -> GraphTable {
        GraphTable {
            offsets: self.list_offsets@,
            counts: self.list_counts@,
            graph_lens: self.list_graph_bytes_lens@,
            tails: self.list_payload_bytes_lens@,
        }
    }

    /// The sizes in the header are positive and the bounds valid; once the table has been loaded
    /// it has an entry for each list, without negative lengths.
    pub open spec fn well_formed(self) -> bool {
        &&& self.header().fits()
        &&& self.sq@.d == self.d
        &&& self.sq@.valid(self.d)
        &&& self.list_sqs@.len() == self.nlist
        &&& forall|i: int|
            0 <= i < self.nlist ==> (#[trigger] self.list_sqs@[i])@.d == self.d
                && self.list_sqs@[i]@.valid(self.d)
        &&& self.loaded ==> {
            &&& self.quantizer_centroids@.len() == self.nlist * self.d
            &&& self.table().fits(self.nlist as nat)
            &&& forall|i: int| 0 <= i < self.nlist ==> #[trigger] self.table().tails[i] >= 0
        }
    }

    /// How long the part before the centroids is, given the header.
    pub fn prefix_len(header: &[u8]) -> (r: Result<usize, IndexError>)
        ensures
            match parse_header(header@) {
                Err(e) => r == Err::<usize, IndexError>(e),
                Ok(h) => {
                    let len = ivfhnswsq_io::centroids_start(h.front.d, h.front.nlist, 0);
                    if len > usize::MAX {
                        r == Err::<usize, IndexError>(IndexError::SectionSizeOverflow)
                    } else {
                        r == Ok::<usize, IndexError>(len as usize)
                    }
                },
            },
    {
        let h: SqHeader = match read_header(header) {
            Ok(v) => v,
            Err(e) => {
                return Err(e);
            },
        };
        let d: u128 = h.front.d as u128;
        let lists: u128 = h.front.nlist as u128 + 1;
        proof {
            assert(d * lists <= 0x7fff_ffff * 0x8000_0000) by (nonlinear_arith)
                requires
                    0 <= d <= 0x7fff_ffff,
                    0 <= lists <= 0x8000_0000,
            ;
        }
        let len: u128 = 64 + 8 * (d * lists);
        if len > usize::MAX as u128 {
            return Err(IndexError::SectionSizeOverflow);
        }
        Ok(len as usize)
    }

    /// Opens a file by what stands before the centroids.
    pub fn open(prefix: &[u8]) -> (r: Result<IVFHNSWSQIndexReader, IndexError>)
        ensures
            match parse_prefix(prefix@) {
                Err(e) => r == Err::<IVFHNSWSQIndexReader, IndexError>(e),
                Ok(p) => r matches Ok(reader) && reader.well_formed() && reader.nothing_loaded()
                    && reader.header() == p.header.front && reader.sq@ == p.sq
                    && ivfhnswsq::bounds_of(reader.list_sqs@) == p.list_sqs,
            },
    {
        let h: SqHeader = match read_header(prefix) {
            Ok(v) => v,
            Err(e) => {
                return Err(e);
            },
        };
        let d: usize = h.front.d;
        let nlist: usize = h.front.nlist;
        let sq: ScalarQuantizer = match read_bounds(prefix, 64, d) {
            Ok(v) => v,
            Err(e) => {
                return Err(e);
            },
        };
        let (sq_min, sq_max) = sq::sq_global_bounds(&sq.mins, &sq.maxs);
        if sq_min != h.sq_min || sq_max != h.sq_max {
            return Err(IndexError::SqSummary);
        }
        assert(prefix@.len() == prefix.len());
        let list_sqs: Vec<ScalarQuantizer> = match read_list_bounds(prefix, 64 + 8 * d, d, nlist) {
            Ok(v) => v,
            Err(e) => {
                return Err(e);
            },
        };
        Ok(
            IVFHNSWSQIndexReader {
                d,
                nlist,
                metric: h.front.metric,
                total_vectors: h.front.total_vectors,
                hnsw_params: h.front.hnsw_params,
                sq,
                list_sqs,
                quantizer_centroids: Vec::new(),
                list_offsets: Vec::new(),
                list_counts: Vec::new(),
                list_graph_bytes_lens: Vec::new(),
                list_payload_bytes_lens: Vec::new(),
                loaded: false,
            },
        )
    }

    /// Where the centroids and the table stand, and how long they are together.
    pub fn section_place(&self) -> (r: Result<(u64, usize), IndexError>)
        requires
            self.well_formed(),
        ensures
            match index_io_util::section_size(self.nlist, self.d) {
                Err(e) => r == Err::<(u64, usize), IndexError>(e),
                Ok(size) => if 4 * size + 24 * self.nlist > usize::MAX {
                    r == Err::<(u64, usize), IndexError>(IndexError::SectionSizeOverflow)
                } else {
                    r == Ok::<(u64, usize), IndexError>(
                        (
                            ivfhnswsq_io::centroids_start(self.d, self.nlist, 0) as u64,
                            (4 * size + 24 * self.nlist) as usize,
                        ),
                    )
                },
            },
    {
        match index_io_util::checked_section_size(self.nlist, self.d) {
            Err(e) => Err(e),
            Ok(size) => {
                let len: u128 = 4 * (size as u128) + 24 * (self.nlist as u128);
                if len > usize::MAX as u128 {
                    return Err(IndexError::SectionSizeOverflow);
                }
                let d: u64 = self.d as u64;
                proof {
                    assert(self.nlist * self.d == self.d * self.nlist) by (nonlinear_arith);
                    assert(self.d * (self.nlist + 1) == self.d * self.nlist + self.d)
                        by (nonlinear_arith);
                }
                let at: u64 = 64 + 8 * (size as u64 + d);
                Ok((at, len as usize))
            },
        }
    }

    /// Takes in the centroids and the table, unless that was done before. A reader that refuses
    /// them stays as it is.
    pub fn ensure_loaded(&mut self, section: &[u8]) -> (r: Result<(), IndexError>)
        requires
            old(self).well_formed(),
        ensures
            final(self).well_formed(),
            final(self).header() == old(self).header(),
            final(self).sq@ == old(self).sq@,
            final(self).list_sqs@ == old(self).list_sqs@,
            if old(self).loaded {
                r is Ok && *final(self) == *old(self)
            } else {
                match parse_section(section@, old(self).d, old(self).nlist) {
                    Ok((centroids, table)) => {
                        &&& r is Ok
                        &&& final(self).loaded
                        &&& final(self).quantizer_centroids@ == centroids
                        &&& final(self).table() == table
                    },
                    Err(e) => r == Err::<(), IndexError>(e) && *final(self) == *old(self),
                }
            },
    {
        if self.loaded {
            return Ok(());
        }
        let size: usize = match index_io_util::checked_section_size(self.nlist, self.d) {
            Ok(v) => v,
            Err(e) => {
                return Err(e);
            },
        };
        let total: usize = section.len();
        if (total as u64) < 4 * (size as u64) {
            return Err(IndexError::UnexpectedEof);
        }
        let centroids: Vec<u32> = index_io_util::patterns_of(
            list_table::part_of(section, 0, 4 * size),
        );
        let table: GraphTableVecs = match graph_lists::read_table(
            section,
            4 * size,
            self.nlist,
            true,
        ) {
            Ok(v) => v,
            Err(e) => {
                return Err(e);
            },
        };
        proof {
            assert(section@.subrange(0, 4 * size) =~= section@.take(4 * size));
            assert(centroids@.len() == size);
        }
        let ghost read = table@;
        let GraphTableVecs { offsets, counts, graph_lens, tails } = table;
        self.quantizer_centroids = centroids;
        self.list_offsets = offsets;
        self.list_counts = counts;
        self.list_graph_bytes_lens = graph_lens;
        self.list_payload_bytes_lens = tails;
        self.loaded = true;
        assert(self.table() =~= read);
        Ok(())
    }

    /// What the table says of a list; nothing for an empty one.
    pub fn list_payload_meta(&self, list_id: usize) -> (r: Result<
        Option<ListPayloadMeta>,
        IndexError,
    >)
        requires
            self.well_formed(),
            self.loaded,
        ensures
            r == payload_meta(self.table(), self.nlist, list_id),
    {
        if list_id >= self.nlist {
            return Err(IndexError::ListIdRange { list_id, nlist: self.nlist });
        }
        assert(self.table().counts[list_id as int] >= 0);
        assert(self.table().graph_lens[list_id as int] >= 0);
        let count: usize = self.list_counts[list_id] as usize;
        if count == 0 {
            return Ok(None);
        }
        let offset: u64 = match index_io_util::checked_list_offset(
            self.list_offsets[list_id],
            list_id,
        ) {
            Ok(v) => v,
            Err(e) => {
                return Err(e);
            },
        };
        let graph_len: usize = self.list_graph_bytes_lens[list_id] as usize;
        if graph_len == 0 {
            return Err(IndexError::MissingGraph { list_id });
        }
        let payload_len: usize = self.list_payload_bytes_lens[list_id] as usize;
        if payload_len == 0 {
            return Err(IndexError::MissingPayloadLength { list_id });
        }
        let minimum: usize = 12 + graph_len;
        if payload_len < minimum {
            return Err(
                IndexError::PayloadTooShort { list_id, len: payload_len, expected: minimum },
            );
        }
        Ok(Some(ListPayloadMeta { list_id, offset, count, payload_len }))
    }

    /// The list whose bytes are handed in. `decode` gives the vectors that its codes stand for.
    pub fn decode_graph_list_payload<D: Fn(usize, &Vec<u8>) -> Vec<u32>>(
        &self,
        meta: ListPayloadMeta,
        payload: &[u8],
        decode: &D,
    ) -> (r: Result<SqGraphList, IndexError>)
        requires
            self.well_formed(),
            sq::is_decoder(*decode, self.nlist as nat),
            meta.list_id < self.nlist,
        ensures
            list_read(
                payload@,
                meta,
                self.d,
                self.metric,
                self.hnsw_params,
                sq::decoding(*decode),
                r,
            ),
    {
        if payload.len() != meta.payload_len {
            return Err(
                IndexError::PayloadLength {
                    list_id: meta.list_id,
                    len: payload.len(),
                    expected: meta.payload_len,
                },
            );
        }
        if payload.len() < 12 {
            return Err(IndexError::UnexpectedEof);
        }
        let base: i64 = little_endian::read_i64_le(payload, 0);
        let id_len: i32 = little_endian::read_i32_le(payload, 8);
        if id_len < 0 {
            return Err(IndexError::NegativeIdBytes { found: id_len, list_id: meta.list_id });
        }
        let ids_end: usize = 12 + id_len as usize;
        let codes_len: usize = match index_io_util::checked_list_bytes(
            meta.count,
            self.sq.code_size(),
        ) {
            Ok(v) => v,
            Err(e) => {
                return Err(e);
            },
        };
        let codes_end: usize = match ids_end.checked_add(codes_len) {
            Some(v) => v,
            None => {
                return Err(IndexError::PayloadOverflow { file: FileKind::IvfHnswSq });
            },
        };
        if codes_end > payload.len() {
            return Err(IndexError::CodesTruncated { list_id: meta.list_id });
        }
        let ids: Vec<i64> = match varint::decode_delta_varint_ids(
            base,
            list_table::part_of(payload, 12, ids_end),
            meta.count,
        ) {
            Ok(v) => v,
            Err(e) => {
                return Err(e);
            },
        };
        let codes: Vec<u8> = list_table::copied(list_table::part_of(payload, ids_end, codes_end));
        let vectors: Vec<u32> = decode(meta.list_id, &codes);
        let graph_bytes: &[u8] = list_table::part_of(payload, codes_end, payload.len());
        proof {
            varint::decoded_ids_are_sorted(
                payload@.subrange(12, ids_end as int),
                base,
                meta.count as nat,
            );
            assert(graph_bytes@ =~= payload@.skip(codes_end as int));
        }
        match graph_codec::decode_graph(
            graph_bytes,
            vectors,
            meta.count,
            self.d,
            self.metric,
            self.hnsw_params,
        ) {
            Ok(Some(graph)) => Ok(SqGraphList { ids, codes, graph }),
            Ok(None) => Err(IndexError::MissingGraph { list_id: meta.list_id }),
            Err(e) => Err(e),
        }
    }
}

impl IVFHNSWSQIndexReader {
    /// A list, given the bytes that stand at its place; nothing where it is empty.
    pub fn read_inverted_list<D: Fn(usize, &Vec<u8>) -> Vec<u32>>(
        &self,
        list_id: usize,
        payload: &[u8],
        decode: &D,
    ) -> (r: Result<Option<SqGraphList>, IndexError>)
        requires
            self.well_formed(),
            self.loaded,
            sq::is_decoder(*decode, self.nlist as nat),
        ensures
            match payload_meta(self.table(), self.nlist, list_id) {
                Err(e) => r == Err::<Option<SqGraphList>, IndexError>(e),
                Ok(None) => r == Ok::<Option<SqGraphList>, IndexError>(None),
                Ok(Some(meta)) => match r {
                    Ok(Some(list)) => list_read(
                        payload@,
                        meta,
                        self.d,
                        self.metric,
                        self.hnsw_params,
                        sq::decoding(*decode),
                        Ok(list),
                    ),
                    Ok(None) => false,
                    Err(e) => list_read(
                        payload@,
                        meta,
                        self.d,
                        self.metric,
                        self.hnsw_params,
                        sq::decoding(*decode),
                        Err(e),
                    ),
                },
            },
    {
        match self.list_payload_meta(list_id) {
            Err(e) => Err(e),
            Ok(None) => Ok(None),
            Ok(Some(meta)) => match self.decode_graph_list_payload(meta, payload, decode) {
                Ok(list) => Ok(Some(list)),
                Err(e) => Err(e),
            },
        }
    }
}

/// What the table says of the lists that are not empty among those asked for; `got` are those
/// before.
pub open spec fn metas_of(
    t: GraphTable,
    nlist: usize,
    list_ids: Seq<usize>,
    got: Seq<ListPayloadMeta>,
) -> Result<Seq<ListPayloadMeta>, IndexError>
    decreases list_ids.len(),
{
    if list_ids.len() == 0 {
        Ok(got)
    } else {
        match payload_meta(t, nlist, list_ids[0]) {
            Err(e) => Err(e),
            Ok(None) => metas_of(t, nlist, list_ids.drop_first(), got),
            Ok(Some(meta)) => metas_of(t, nlist, list_ids.drop_first(), got.push(meta)),
        }
    }
}

/// Which bytes are read together for the lists asked for.
pub open spec fn read_ranges(t: GraphTable, nlist: usize, list_ids: Seq<usize>) -> Result<
    Seq<RangeModel>,
    IndexError,
> {
    match metas_of(t, nlist, list_ids, Seq::empty()) {
        Err(e) => Err(e),
        Ok(metas) => read_plan::plan(read_plan::by_offset(metas)),
    }
}

/// The bytes of a list among those that were read together.
pub open spec fn part_of_range(range: RangeModel, payload: Seq<u8>, j: int) -> Seq<u8> {
    let from = range.metas[j].offset - range.start;
    payload.subrange(from, from + range.metas[j].payload_len)
}

/// Lists of a range that have been read, behind those that were there before.
pub open spec fn range_read(
    before: Seq<(usize, SqGraphList)>,
    after: Seq<(usize, SqGraphList)>,
    range: RangeModel,
    payload: Seq<u8>,
    reader: IVFHNSWSQIndexReader,
    dec: ivfhnswsq_io::Decoding,
    n: int,
) -> bool {
    &&& after.len() == before.len() + n
    &&& after.take(before.len() as int) == before
    &&& forall|j: int|
        0 <= j < n ==> #[trigger] list_taken(before.len(), after, range, payload, reader, dec, j)
}

pub open spec fn list_taken(
    before: nat,
    after: Seq<(usize, SqGraphList)>,
    range: RangeModel,
    payload: Seq<u8>,
    reader: IVFHNSWSQIndexReader,
    dec: ivfhnswsq_io::Decoding,
    j: int,
) -> bool {
    &&& after[before + j].0 == range.metas[j].list_id
    &&& list_read(
        part_of_range(range, payload, j),
        range.metas[j],
        reader.d,
        reader.metric,
        reader.hnsw_params,
        dec,
        Ok(after[before + j].1),
    )
}

impl IVFHNSWSQIndexReader {
    /// Plans which bytes are read together for the lists asked for.
    pub fn plan_coalesced_reads(&self, list_ids: &Vec<usize>) -> (r: Result<
        Vec<ReadRange>,
        IndexError,
    >)
        requires
            self.well_formed(),
            self.loaded,
        ensures
            match r {
                Ok(ranges) => read_ranges(self.table(), self.nlist, list_ids@) == Ok::<
                    Seq<RangeModel>,
                    IndexError,
                >(read_plan::range_views(ranges@)),
                Err(e) => read_ranges(self.table(), self.nlist, list_ids@) == Err::<
                    Seq<RangeModel>,
                    IndexError,
                >(e),
            },
    {
        let mut metas: Vec<ListPayloadMeta> = Vec::new();
        assert(list_ids@.skip(0) =~= list_ids@);
        for i in 0..list_ids.len()
            invariant
                self.well_formed(),
                self.loaded,
                metas_of(self.table(), self.nlist, list_ids@, Seq::empty()) == metas_of(
                    self.table(),
                    self.nlist,
                    list_ids@.skip(i as int),
                    metas@,
                ),
        {
            assert(list_ids@.skip(i as int)[0] == list_ids@[i as int]);
            assert(list_ids@.skip(i as int).drop_first() =~= list_ids@.skip(i + 1));
            match self.list_payload_meta(list_ids[i]) {
                Ok(Some(meta)) => {
                    metas.push(meta);
                },
                Ok(None) => {},
                Err(e) => {
                    return Err(e);
                },
            }
        }
        assert(list_ids@.skip(list_ids@.len() as int) =~= Seq::<usize>::empty());
        read_plan::plan_reads(&metas)
    }

    /// Takes the lists out of bytes that were read together.
    pub fn read_coalesced_graph_list_range<D: Fn(usize, &Vec<u8>) -> Vec<u32>>(
        &self,
        range: &ReadRange,
        payload: &[u8],
        decode: &D,
        loaded: &mut Vec<(usize, SqGraphList)>,
    ) -> (r: Result<(), IndexError>)
        requires
            self.well_formed(),
            sq::is_decoder(*decode, self.nlist as nat),
            read_plan::range_ok(range@),
            payload@.len() == range@.end - range@.start,
            forall|j: int|
                0 <= j < range@.metas.len() ==> (#[trigger] range@.metas[j]).list_id < self.nlist,
        ensures
            match r {
                Ok(_) => range_read(
                    old(loaded)@,
                    final(loaded)@,
                    range@,
                    payload@,
                    *self,
                    sq::decoding(*decode),
                    range@.metas.len() as int,
                ),
                Err(e) => exists|j: int|
                    {
                        &&& 0 <= j < range@.metas.len()
                        &&& #[trigger] list_read(
                            part_of_range(range@, payload@, j),
                            range@.metas[j],
                            self.d,
                            self.metric,
                            self.hnsw_params,
                            sq::decoding(*decode),
                            Err(e),
                        )
                        &&& range_read(
                            old(loaded)@,
                            final(loaded)@,
                            range@,
                            payload@,
                            *self,
                            sq::decoding(*decode),
                            j,
                        )
                    },
            },
    {
        let ghost dec = sq::decoding(*decode);
        let ghost start = loaded@;
        let total: usize = payload.len();
        assert(loaded@.take(start.len() as int) =~= start);
        for j in 0..range.metas.len()
            invariant
                self.well_formed(),
                sq::is_decoder(*decode, self.nlist as nat),
                read_plan::range_ok(range@),
                total == payload@.len(),
                payload@.len() == range@.end - range@.start,
                forall|j: int|
                    0 <= j < range@.metas.len() ==> (#[trigger] range@.metas[j]).list_id
                        < self.nlist,
                dec == sq::decoding(*decode),
                start == old(loaded)@,
                range_read(start, loaded@, range@, payload@, *self, dec, j as int),
        {
            let meta: ListPayloadMeta = range.metas[j];
            assert(range@.metas[j as int] == meta);
            let from: usize = (meta.offset - range.start) as usize;
            let to: usize = from + meta.payload_len;
            match self.decode_graph_list_payload(
                meta,
                list_table::part_of(payload, from, to),
                decode,
            ) {
                Ok(list) => {
                    let ghost before = loaded@;
                    loaded.push((meta.list_id, list));
                    proof {
                        assert(loaded@.take(start.len() as int) =~= before.take(
                            start.len() as int,
                        ));
                        assert forall|i: int| 0 <= i < j + 1 implies #[trigger] list_taken(
                            start.len(),
                            loaded@,
                            range@,
                            payload@,
                            *self,
                            dec,
                            i,
                        ) by {
                            if i < j {
                                assert(list_taken(
                                    start.len(),
                                    before,
                                    range@,
                                    payload@,
                                    *self,
                                    dec,
                                    i,
                                ));
                                assert(loaded@[start.len() + i] == before[start.len() + i]);
                            }
                        }
                    }
                },
                Err(e) => {
                    assert(list_read(
                        part_of_range(range@, payload@, j as int),
                        range@.metas[j as int],
                        self.d,
                        self.metric,
                        self.hnsw_params,
                        dec,
                        Err(e),
                    ));
                    return Err(e);
                },
            }
        }
        Ok(())
    }
}

/// The ids of lists that were read.
pub open spec fn loaded_ids(loaded: Seq<(usize, SqGraphList)>) -> Seq<usize> {
    Seq::new(loaded.len(), |i: int| loaded[i].0)
}

/// Lists that were read, in the order in which they were asked for.
pub fn in_request_order(list_ids: &Vec<usize>, loaded: Vec<(usize, SqGraphList)>) -> (r: Vec<
    (usize, SqGraphList),
>)
    ensures
        r@ == sort::picked(
            loaded@,
            sort::stable_order(read_plan::request_keys(list_ids@, loaded_ids(loaded@))),
        ),
{
    let mut ids: Vec<usize> = Vec::new();
    for i in 0..loaded.len()
        invariant
            ids@ == loaded_ids(loaded@).take(i as int),
    {
        ids.push(loaded[i].0);
        assert(ids@ =~= loaded_ids(loaded@).take(i + 1));
    }
    assert(ids@ =~= loaded_ids(loaded@));
    let order: Vec<usize> = read_plan::request_order(list_ids, &ids);
    sort::rearrange(loaded, &order)
}

/// The lists, to be searched.
pub open spec fn listed<'a>(lists: Seq<SqGraphList>) -> Seq<HnswSearchList<'a>> {
    Seq::new(
        lists.len(),
        |i: int| HnswSearchList { ids: &lists[i].ids, graph: Some(&lists[i].graph) },
    )
}

/// Every graph is well formed and has a node for each row of its list.
pub open spec fn lists_ok(lists: Seq<SqGraphList>) -> bool {
    forall|i: int|
        0 <= i < lists.len() ==> (#[trigger] lists[i]).graph@.well_formed()
            && lists[i].graph@.levels.len() == lists[i].ids@.len()
}

fn search_lists(lists: &Vec<SqGraphList>) -> (r: Vec<HnswSearchList<'_>>)
    requires
        lists_ok(lists@),
    ensures
        r@ == listed(lists@),
        hnsw_search::all_well_formed(r@),
{
    let mut r: Vec<HnswSearchList<'_>> = Vec::new();
    for i in 0..lists.len()
        invariant
            lists_ok(lists@),
            r@ == listed(lists@).take(i as int),
            hnsw_search::all_well_formed(r@),
    {
        let list = HnswSearchList { ids: &lists[i].ids, graph: Some(&lists[i].graph) };
        assert(list@.well_formed());
        r.push(list);
        assert(r@ =~= listed(lists@).take(i + 1));
    }
    assert(r@ =~= listed(lists@));
    r
}

/// Searches lists that were read, for many queries: `lists[i]` is list `loaded[i]`, and each query
/// looks at those that it probes. `graph_distance` is that to a decoded vector, `code_distance`
/// that to a code.
pub fn search_batch_ivfhnswsq_reader_filter<
    T: RowIdFilter,
    F: Fn(usize, usize, usize) -> u32,
    S: Fn(usize, usize, usize) -> u32,
>(
    probes: &Vec<Vec<usize>>,
    loaded: &Vec<usize>,
    lists: &Vec<SqGraphList>,
    k: usize,
    ef_search: usize,
    filter: Option<&T>,
    graph_distance: &F,
    code_distance: &S,
) -> (r: (Vec<i64>, Vec<u32>))
    requires
        loaded@.len() == lists@.len(),
        lists_ok(lists@),
        ivf_search::gives_batch_distances(
            *graph_distance,
            probes@.len(),
            ivf_search::graph_row_counts(listed(lists@)),
        ),
        ivf_search::gives_batch_distances(
            *code_distance,
            probes@.len(),
            ivf_search::graph_row_counts(listed(lists@)),
        ),
    ensures
        exists|hits: Seq<Seq<Hit>>|
            #[trigger] ivf_search::queries_searched(
                ivf_search::batch_picks(ivf_search::probe_lists(probes@), loaded@),
                listed(lists@),
                k,
                ef_search,
                filter,
                ivf_search::batch_distances(*graph_distance),
                ivf_search::batch_distances(*code_distance),
                true,
                hits,
            ) && r.0@ == ivf_search::all_ids(hits, k) && r.1@ == ivf_search::all_dists(hits, k),
{
    let searched: Vec<HnswSearchList<'_>> = search_lists(lists);
    ivf_search::search_hnsw_batch(
        probes,
        loaded,
        &searched,
        k,
        ef_search,
        filter,
        graph_distance,
        code_distance,
    )
}

/// Searches lists that were read in the order of one query's probes.
pub fn search_with_filter<
    T: RowIdFilter,
    F: Fn(usize, usize) -> u32,
    S: Fn(usize, usize) -> u32,
>(
    lists: &Vec<SqGraphList>,
    k: usize,
    ef_search: usize,
    filter: Option<&T>,
    graph_distance: &F,
    code_distance: &S,
) -> (r: (Vec<i64>, Vec<u32>))
    requires
        lists_ok(lists@),
        hnsw_search::rows_agree(
            *graph_distance,
            hnsw_layer::pair_distances(*graph_distance),
            listed(lists@),
        ),
        hnsw_search::rows_agree(
            *code_distance,
            hnsw_layer::pair_distances(*code_distance),
            listed(lists@),
        ),
    ensures
        exists|hits: Seq<Hit>|
            #[trigger] hnsw_search::search_outcome(
                listed(lists@),
                sort::positions(0, lists@.len() as int),
                k,
                ef_search,
                filter,
                hnsw_layer::pair_distances(*graph_distance),
                hnsw_layer::pair_distances(*code_distance),
                false,
                hits,
            ) && r.0@ == ivf_search::padded_ids(hits, k) && r.1@ == ivf_search::padded_dists(
                hits,
                k,
            ),
{
    let searched: Vec<HnswSearchList<'_>> = search_lists(lists);
    ivf_search::search_hnsw_lists(&searched, k, ef_search, filter, graph_distance, code_distance)
}

} // verus!

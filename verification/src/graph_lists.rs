//! What the files of lists with graphs have in common: the front of the header, and the table of
//! the lists.
use vstd::prelude::*;

use crate::distance::MetricType;
use crate::error::{Field, FileKind, IndexError};
use crate::hnsw::HnswBuildParams;
use crate::index_io_util;
use crate::little_endian;
use crate::wire;

verus! {

/// What the front of the header says.
pub struct GraphHeader {
    pub d: usize,
    pub nlist: usize,
    pub metric: MetricType,
    pub total_vectors: i64,
    pub hnsw_params: HnswBuildParams,
}

impl GraphHeader {
    /// Every number is positive and fits into its place.
    pub open spec fn fits(self) -> bool {
        &&& 0 < self.d <= i32::MAX
        &&& 0 < self.nlist <= i32::MAX
        &&& 0 < self.hnsw_params.m <= i32::MAX
        &&& 0 < self.hnsw_params.ef_construction <= i32::MAX
        &&& 0 < self.hnsw_params.max_level <= i32::MAX
    }

    /// The first number that is too large for its place.
    pub open spec fn exceeds(self, e: IndexError) -> bool {
        if self.d > i32::MAX {
            e == IndexError::LengthExceedsI32 { field: Field::Dimension, value: self.d }
        } else if self.nlist > i32::MAX {
            e == IndexError::LengthExceedsI32 { field: Field::Nlist, value: self.nlist }
        } else if self.hnsw_params.m > i32::MAX {
            e == IndexError::LengthExceedsI32 { field: Field::HnswM, value: self.hnsw_params.m }
        } else if self.hnsw_params.ef_construction > i32::MAX {
            e == IndexError::LengthExceedsI32 {
                field: Field::HnswEfConstruction,
                value: self.hnsw_params.ef_construction,
            }
        } else {
            self.hnsw_params.max_level > i32::MAX && e == IndexError::LengthExceedsI32 {
                field: Field::HnswMaxLevel,
                value: self.hnsw_params.max_level,
            }
        }
    }
}

/// The front of the header, 40 bytes.
pub open spec fn front_bytes(magic: u32, version: u32, h: GraphHeader) -> Seq<u8> {
    little_endian::u32_bytes(magic) + little_endian::u32_bytes(version) + little_endian::i32_bytes(
        h.d as i32,
    ) + little_endian::i32_bytes(h.nlist as i32) + little_endian::u32_bytes(h.metric.spec_code())
        + little_endian::i64_bytes(h.total_vectors) + little_endian::i32_bytes(
        h.hnsw_params.m as i32,
    ) + little_endian::i32_bytes(h.hnsw_params.ef_construction as i32) + little_endian::i32_bytes(
        h.hnsw_params.max_level as i32,
    )
}

/// A number of the header that must be positive.
pub open spec fn positive_at(s: Seq<u8>, pos: int, field: Field) -> Result<usize, IndexError> {
    if s.len() < pos + 4 {
        Err(IndexError::UnexpectedEof)
    } else if little_endian::i32_at(s, pos) <= 0 {
        Err(IndexError::HeaderNotPositive { field, found: little_endian::i32_at(s, pos) })
    } else {
        Ok(little_endian::i32_at(s, pos) as usize)
    }
}

/// Reads the front of the header, field by field.
pub open spec fn parse_front(s: Seq<u8>, file: FileKind, magic: u32, version: u32) -> Result<
    GraphHeader,
    IndexError,
> {
    if s.len() < 4 {
        Err(IndexError::UnexpectedEof)
    } else if little_endian::u32_at(s, 0) != magic {
        Err(IndexError::FileMagic { file, magic: little_endian::u32_at(s, 0) })
    } else if s.len() < 8 {
        Err(IndexError::UnexpectedEof)
    } else if little_endian::u32_at(s, 4) != version {
        Err(IndexError::FileVersion { file, version: little_endian::u32_at(s, 4) })
    } else {
        match positive_at(s, 8, Field::Dimension) {
            Err(e) => Err(e),
            Ok(d) => match positive_at(s, 12, Field::Nlist) {
                Err(e) => Err(e),
                Ok(nlist) => if s.len() < 20 {
                    Err(IndexError::UnexpectedEof)
                } else {
                    match MetricType::spec_from_code(little_endian::u32_at(s, 16)) {
                        None => Err(
                            IndexError::UnknownMetric { code: little_endian::u32_at(s, 16) },
                        ),
                        Some(metric) => parse_params(s, d, nlist, metric),
                    }
                },
            },
        }
    }
}

/// Reads the number of rows and the graph parameters.
pub open spec fn parse_params(
    s: Seq<u8>,
    d: usize,
    nlist: usize,
    metric: MetricType,
) -> Result<GraphHeader, IndexError> {
    if s.len() < 28 {
        Err(IndexError::UnexpectedEof)
    } else {
        match positive_at(s, 28, Field::HnswM) {
            Err(e) => Err(e),
            Ok(m) => match positive_at(s, 32, Field::HnswEfConstruction) {
                Err(e) => Err(e),
                Ok(ef_construction) => match positive_at(s, 36, Field::HnswMaxLevel) {
                    Err(e) => Err(e),
                    Ok(max_level) => Ok(
                        GraphHeader {
                            d,
                            nlist,
                            metric,
                            total_vectors: little_endian::i64_at(s, 20),
                            hnsw_params: HnswBuildParams { m, ef_construction, max_level },
                        },
                    ),
                },
            },
        }
    }
}

/// A number of the header that must be positive.
pub fn read_positive(header: &[u8], pos: usize, field: Field) -> (r: Result<usize, IndexError>)
    requires
        pos <= 64,
    ensures
        r == positive_at(header@, pos as int, field),
{
    if header.len() < pos + 4 {
        return Err(IndexError::UnexpectedEof);
    }
    index_io_util::validate_positive_i32(little_endian::read_i32_le(header, pos), field)
}

/// Reads the front of a header.
pub fn read_front(header: &[u8], file: FileKind, magic: u32, version: u32) -> (r: Result<
    GraphHeader,
    IndexError,
>)
    ensures
        r == parse_front(header@, file, magic, version),
        r matches Ok(h) ==> h.fits() && header@.len() >= 40,
{
    if header.len() < 4 {
        return Err(IndexError::UnexpectedEof);
    }
    let found: u32 = little_endian::read_u32_le(header, 0);
    if found != magic {
        return Err(IndexError::FileMagic { file, magic: found });
    }
    if header.len() < 8 {
        return Err(IndexError::UnexpectedEof);
    }
    let stated: u32 = little_endian::read_u32_le(header, 4);
    if stated != version {
        return Err(IndexError::FileVersion { file, version: stated });
    }
    let d: usize = match read_positive(header, 8, Field::Dimension) {
        Ok(v) => v,
        Err(e) => {
            return Err(e);
        },
    };
    let nlist: usize = match read_positive(header, 12, Field::Nlist) {
        Ok(v) => v,
        Err(e) => {
            return Err(e);
        },
    };
    if header.len() < 20 {
        return Err(IndexError::UnexpectedEof);
    }
    let code: u32 = little_endian::read_u32_le(header, 16);
    let metric: MetricType = match MetricType::from_code(code) {
        Some(v) => v,
        None => {
            return Err(IndexError::UnknownMetric { code });
        },
    };
    if header.len() < 28 {
        return Err(IndexError::UnexpectedEof);
    }
    let total_vectors: i64 = little_endian::read_i64_le(header, 20);
    let m: usize = match read_positive(header, 28, Field::HnswM) {
        Ok(v) => v,
        Err(e) => {
            return Err(e);
        },
    };
    let ef_construction: usize = match read_positive(header, 32, Field::HnswEfConstruction) {
        Ok(v) => v,
        Err(e) => {
            return Err(e);
        },
    };
    let max_level: usize = match read_positive(header, 36, Field::HnswMaxLevel) {
        Ok(v) => v,
        Err(e) => {
            return Err(e);
        },
    };
    Ok(
        GraphHeader {
            d,
            nlist,
            metric,
            total_vectors,
            hnsw_params: HnswBuildParams { m, ef_construction, max_level },
        },
    )
}

/// Appends the front of a header.
pub fn write_front(out: &mut Vec<u8>, magic: u32, version: u32, h: &GraphHeader)
    requires
        h.fits(),
    ensures
        final(out)@ == old(out)@ + front_bytes(magic, version, *h),
{
    little_endian::write_u32_le(out, magic);
    little_endian::write_u32_le(out, version);
    little_endian::write_i32_le(out, h.d as i32);
    little_endian::write_i32_le(out, h.nlist as i32);
    little_endian::write_u32_le(out, h.metric.code());
    little_endian::write_i64_le(out, h.total_vectors);
    little_endian::write_i32_le(out, h.hnsw_params.m as i32);
    little_endian::write_i32_le(out, h.hnsw_params.ef_construction as i32);
    little_endian::write_i32_le(out, h.hnsw_params.max_level as i32);
    assert(out@ =~= old(out)@ + front_bytes(magic, version, *h));
}

/// Checks that every number of a header fits into its place.
pub fn make_header(
    d: usize,
    nlist: usize,
    metric: MetricType,
    total_vectors: i64,
    params: HnswBuildParams,
) -> (r: Result<GraphHeader, IndexError>)
    requires
        d > 0,
        nlist > 0,
    ensures
        ({
            let h = GraphHeader {
                d,
                nlist,
                metric,
                total_vectors,
                hnsw_params: params.spec_sanitized(),
            };
            match r {
                Ok(v) => v == h && h.fits(),
                Err(e) => !h.fits() && h.exceeds(e),
            }
        }),
{
    match index_io_util::usize_to_i32(d, Field::Dimension) {
        Ok(_) => {},
        Err(e) => {
            return Err(e);
        },
    }
    match index_io_util::usize_to_i32(nlist, Field::Nlist) {
        Ok(_) => {},
        Err(e) => {
            return Err(e);
        },
    }
    let hnsw_params: HnswBuildParams = params.sanitized();
    match index_io_util::usize_to_i32(hnsw_params.m, Field::HnswM) {
        Ok(_) => {},
        Err(e) => {
            return Err(e);
        },
    }
    match index_io_util::usize_to_i32(hnsw_params.ef_construction, Field::HnswEfConstruction) {
        Ok(_) => {},
        Err(e) => {
            return Err(e);
        },
    }
    match index_io_util::usize_to_i32(hnsw_params.max_level, Field::HnswMaxLevel) {
        Ok(_) => {},
        Err(e) => {
            return Err(e);
        },
    }
    Ok(GraphHeader { d, nlist, metric, total_vectors, hnsw_params })
}

/// The front of a header reads back.
pub proof fn lemma_front_found(
    s: Seq<u8>,
    file: FileKind,
    magic: u32,
    version: u32,
    h: GraphHeader,
)
    requires
        h.fits(),
        wire::occurs(s, 0, front_bytes(magic, version, h)),
    ensures
        front_bytes(magic, version, h).len() == 40,
        parse_front(s, file, magic, version) == Ok::<GraphHeader, IndexError>(h),
{
    let p1 = little_endian::u32_bytes(magic);
    let p2 = little_endian::u32_bytes(version);
    let p3 = little_endian::i32_bytes(h.d as i32);
    let p4 = little_endian::i32_bytes(h.nlist as i32);
    let p5 = little_endian::u32_bytes(h.metric.spec_code());
    let p6 = little_endian::i64_bytes(h.total_vectors);
    let p7 = little_endian::i32_bytes(h.hnsw_params.m as i32);
    let p8 = little_endian::i32_bytes(h.hnsw_params.ef_construction as i32);
    let p9 = little_endian::i32_bytes(h.hnsw_params.max_level as i32);
    little_endian::lemma_lens();
    wire::lemma_occurs_split(s, 0, p1 + p2 + p3 + p4 + p5 + p6 + p7 + p8, p9);
    wire::lemma_occurs_split(s, 0, p1 + p2 + p3 + p4 + p5 + p6 + p7, p8);
    wire::lemma_occurs_split(s, 0, p1 + p2 + p3 + p4 + p5 + p6, p7);
    wire::lemma_occurs_split(s, 0, p1 + p2 + p3 + p4 + p5, p6);
    wire::lemma_occurs_split(s, 0, p1 + p2 + p3 + p4, p5);
    wire::lemma_occurs_split(s, 0, p1 + p2 + p3, p4);
    wire::lemma_occurs_split(s, 0, p1 + p2, p3);
    wire::lemma_occurs_split(s, 0, p1, p2);
    little_endian::read_back_u32(s, 0, magic);
    little_endian::read_back_u32(s, 4, version);
    little_endian::read_back_i32(s, 8, h.d as i32);
    little_endian::read_back_i32(s, 12, h.nlist as i32);
    little_endian::read_back_u32(s, 16, h.metric.spec_code());
    little_endian::read_back_i64(s, 20, h.total_vectors);
    little_endian::read_back_i32(s, 28, h.hnsw_params.m as i32);
    little_endian::read_back_i32(s, 32, h.hnsw_params.ef_construction as i32);
    little_endian::read_back_i32(s, 36, h.hnsw_params.max_level as i32);
    h.metric.code_round_trip(h.metric.spec_code());
}

/// What the table says of the lists: where each starts, how many rows it has, how long its graph
/// is, and one more number.
#[verifier::ext_equal]
pub struct GraphTable {
    pub offsets: Seq<i64>,
    pub counts: Seq<i32>,
    pub graph_lens: Seq<i32>,
    pub tails: Seq<i64>,
}

pub open spec fn no_table() -> GraphTable {
    GraphTable {
        offsets: Seq::empty(),
        counts: Seq::empty(),
        graph_lens: Seq::empty(),
        tails: Seq::empty(),
    }
}

impl GraphTable {
    /// One entry for each of `nlist` lists, none with a negative length.
    pub open spec fn fits(self, nlist: nat) -> bool {
        &&& self.offsets.len() == nlist
        &&& self.counts.len() == nlist
        &&& self.graph_lens.len() == nlist
        &&& self.tails.len() == nlist
        &&& forall|i: int| 0 <= i < nlist ==> #[trigger] self.counts[i] >= 0
        &&& forall|i: int| 0 <= i < nlist ==> #[trigger] self.graph_lens[i] >= 0
    }

    pub open spec fn prefix(self, k: int) -> GraphTable {
        GraphTable {
            offsets: self.offsets.take(k),
            counts: self.counts.take(k),
            graph_lens: self.graph_lens.take(k),
            tails: self.tails.take(k),
        }
    }

    pub open spec fn entry(self, i: int) -> Seq<u8> {
        little_endian::i64_bytes(self.offsets[i]) + little_endian::i32_bytes(self.counts[i])
            + little_endian::i32_bytes(self.graph_lens[i]) + little_endian::i64_bytes(self.tails[i])
    }

    pub open spec fn entries(self) -> Seq<Seq<u8>> {
        Seq::new(self.offsets.len(), |i: int| self.entry(i))
    }

    /// The table as it is stored.
    pub open spec fn bytes(self) -> Seq<u8> {
        wire::concat(self.entries())
    }
}

/// Reads the table from `pos` on until there are `nlist` entries, `got` being those before. Where
/// the last number of an entry is a length (`lengths`) it must not be negative.
pub open spec fn parse_table(
    s: Seq<u8>,
    pos: nat,
    got: GraphTable,
    nlist: nat,
    lengths: bool,
) -> Result<GraphTable, IndexError>
    decreases nlist - got.offsets.len(),
{
    let list_id = got.offsets.len() as usize;
    let at = pos as int;
    if got.offsets.len() >= nlist {
        Ok(got)
    } else if pos + 12 > s.len() {
        Err(IndexError::UnexpectedEof)
    } else if little_endian::i32_at(s, at + 8) < 0 {
        Err(IndexError::NegativeListCount { found: little_endian::i32_at(s, at + 8), list_id })
    } else if pos + 16 > s.len() {
        Err(IndexError::UnexpectedEof)
    } else if little_endian::i32_at(s, at + 12) < 0 {
        Err(IndexError::NegativeGraphBytes { found: little_endian::i32_at(s, at + 12), list_id })
    } else if pos + 24 > s.len() {
        Err(IndexError::UnexpectedEof)
    } else if lengths && little_endian::i64_at(s, at + 16) < 0 {
        Err(IndexError::NegativePayloadBytes { offset: little_endian::i64_at(s, at + 16), list_id })
    } else {
        parse_table(
            s,
            pos + 24,
            GraphTable {
                offsets: got.offsets.push(little_endian::i64_at(s, at)),
                counts: got.counts.push(little_endian::i32_at(s, at + 8)),
                graph_lens: got.graph_lens.push(little_endian::i32_at(s, at + 12)),
                tails: got.tails.push(little_endian::i64_at(s, at + 16)),
            },
            nlist,
            lengths,
        )
    }
}

/// The table of the lists.
pub struct GraphTableVecs {
    pub offsets: Vec<i64>,
    pub counts: Vec<i32>,
    pub graph_lens: Vec<i32>,
    pub tails: Vec<i64>,
}

impl View for GraphTableVecs {
    type V = GraphTable;

    open spec fn view(&self) -> GraphTable {
        GraphTable {
            offsets: self.offsets@,
            counts: self.counts@,
            graph_lens: self.graph_lens@,
            tails: self.tails@,
        }
    }
}

/// Reads a table that starts at `start`.
pub fn read_table(section: &[u8], start: usize, nlist: usize, lengths: bool) -> (r: Result<
    GraphTableVecs,
    IndexError,
>)
    requires
        start <= section@.len(),
    ensures
        match r {
            Ok(t) => {
                &&& parse_table(section@, start as nat, no_table(), nlist as nat, lengths) == Ok::<
                    GraphTable,
                    IndexError,
                >(t@)
                &&& t@.fits(nlist as nat)
                &&& lengths ==> forall|i: int| 0 <= i < nlist ==> #[trigger] t@.tails[i] >= 0
            },
            Err(e) => parse_table(section@, start as nat, no_table(), nlist as nat, lengths)
                == Err::<GraphTable, IndexError>(e),
        },
{
    let total: usize = section.len();
    let mut t = GraphTableVecs {
        offsets: Vec::new(),
        counts: Vec::new(),
        graph_lens: Vec::new(),
        tails: Vec::new(),
    };
    let mut pos: usize = start;
    assert(t@ =~= no_table());
    for i in 0..nlist
        invariant
            total == section@.len(),
            start <= pos <= total,
            t@.fits(i as nat),
            lengths ==> forall|k: int| 0 <= k < i ==> #[trigger] t@.tails[k] >= 0,
            parse_table(section@, start as nat, no_table(), nlist as nat, lengths) == parse_table(
                section@,
                pos as nat,
                t@,
                nlist as nat,
                lengths,
            ),
    {
        if total - pos < 12 {
            return Err(IndexError::UnexpectedEof);
        }
        let offset: i64 = little_endian::read_i64_le(section, pos);
        let count: i32 = little_endian::read_i32_le(section, pos + 8);
        if count < 0 {
            return Err(IndexError::NegativeListCount { found: count, list_id: i });
        }
        if total - pos < 16 {
            return Err(IndexError::UnexpectedEof);
        }
        let graph_len: i32 = little_endian::read_i32_le(section, pos + 12);
        if graph_len < 0 {
            return Err(IndexError::NegativeGraphBytes { found: graph_len, list_id: i });
        }
        if total - pos < 24 {
            return Err(IndexError::UnexpectedEof);
        }
        let tail: i64 = little_endian::read_i64_le(section, pos + 16);
        if lengths && tail < 0 {
            return Err(IndexError::NegativePayloadBytes { offset: tail, list_id: i });
        }
        t.offsets.push(offset);
        t.counts.push(count);
        t.graph_lens.push(graph_len);
        t.tails.push(tail);
        pos = pos + 24;
    }
    Ok(t)
}

/// Appends a table.
pub fn write_table(out: &mut Vec<u8>, t: &GraphTableVecs, nlist: usize)
    requires
        t@.fits(nlist as nat),
    ensures
        final(out)@ == old(out)@ + t@.bytes(),
{
    let ghost start = out@;
    let ghost entries = t@.entries();
    proof {
        wire::lemma_concat_none(entries);
        assert(start + Seq::<u8>::empty() =~= start);
    }
    for i in 0..nlist
        invariant
            t@.fits(nlist as nat),
            entries == t@.entries(),
            out@ == start + wire::concat(entries.take(i as int)),
    {
        let ghost before = out@;
        little_endian::write_i64_le(out, t.offsets[i]);
        little_endian::write_i32_le(out, t.counts[i]);
        little_endian::write_i32_le(out, t.graph_lens[i]);
        little_endian::write_i64_le(out, t.tails[i]);
        proof {
            wire::lemma_concat_next(entries, i as int);
            assert(out@ =~= before + t@.entry(i as int));
            assert(out@ =~= start + wire::concat(entries.take(i + 1)));
        }
    }
    proof {
        wire::lemma_concat_all(entries);
    }
}

proof fn lemma_entry_found(s: Seq<u8>, pos: int, t: GraphTable, i: int)
    requires
        wire::occurs(s, pos, t.entry(i)),
    ensures
        t.entry(i).len() == 24,
        pos + 24 <= s.len(),
        little_endian::i64_at(s, pos) == t.offsets[i],
        little_endian::i32_at(s, pos + 8) == t.counts[i],
        little_endian::i32_at(s, pos + 12) == t.graph_lens[i],
        little_endian::i64_at(s, pos + 16) == t.tails[i],
{
    let a = little_endian::i64_bytes(t.offsets[i]);
    let b = little_endian::i32_bytes(t.counts[i]);
    let c = little_endian::i32_bytes(t.graph_lens[i]);
    let e = little_endian::i64_bytes(t.tails[i]);
    little_endian::lemma_lens();
    wire::lemma_occurs_split(s, pos, a + b + c, e);
    wire::lemma_occurs_split(s, pos, a + b, c);
    wire::lemma_occurs_split(s, pos, a, b);
    little_endian::read_back_i64(s, pos, t.offsets[i]);
    little_endian::read_back_i32(s, pos + 8, t.counts[i]);
    little_endian::read_back_i32(s, pos + 12, t.graph_lens[i]);
    little_endian::read_back_i64(s, pos + 16, t.tails[i]);
}

pub proof fn lemma_table_len(t: GraphTable, k: int)
    requires
        0 <= k <= t.offsets.len(),
    ensures
        wire::concat(t.entries().take(k)).len() == 24 * k,
        t.bytes().len() == 24 * t.offsets.len(),
{
    little_endian::lemma_lens();
    let parts = t.entries().take(k);
    assert forall|i: int| 0 <= i < parts.len() implies (#[trigger] parts[i]).len() == 24 by {
        assert(parts[i] == t.entry(i));
    }
    wire::lemma_concat_len(parts, 24);
    let all = t.entries();
    assert forall|i: int| 0 <= i < all.len() implies (#[trigger] all[i]).len() == 24 by {
        assert(all[i] == t.entry(i));
    }
    wire::lemma_concat_len(all, 24);
}

/// A stored table reads back.
pub proof fn lemma_table_found(
    s: Seq<u8>,
    pos: int,
    t: GraphTable,
    nlist: nat,
    lengths: bool,
    k: int,
)
    requires
        wire::occurs(s, pos, t.bytes()),
        t.fits(nlist),
        lengths ==> forall|i: int| 0 <= i < nlist ==> #[trigger] t.tails[i] >= 0,
        0 <= k <= nlist,
        nlist <= usize::MAX,
    ensures
        parse_table(s, (pos + 24 * k) as nat, t.prefix(k), nlist, lengths) == Ok::<
            GraphTable,
            IndexError,
        >(t),
    decreases nlist - k,
{
    if k == nlist {
        assert(t.prefix(k) =~= t);
    } else {
        let parts = t.entries();
        wire::lemma_concat_part(s, pos, parts, k);
        lemma_table_len(t, k);
        lemma_entry_found(s, pos + 24 * k, t, k);
        assert(GraphTable {
            offsets: t.prefix(k).offsets.push(t.offsets[k]),
            counts: t.prefix(k).counts.push(t.counts[k]),
            graph_lens: t.prefix(k).graph_lens.push(t.graph_lens[k]),
            tails: t.prefix(k).tails.push(t.tails[k]),
        } =~= t.prefix(k + 1));
        lemma_table_found(s, pos, t, nlist, lengths, k + 1);
    }
}

} // verus!

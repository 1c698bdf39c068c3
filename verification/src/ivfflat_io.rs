//! Files of plain inverted lists.
//!
//! A file is a header of 64 bytes, the centroids, a table with 16 bytes for each list (where it
//! starts, how many rows it holds, how long its id section is), and the lists. A list that is not
//! empty holds its first id, the length of its id section, the section, and its vectors; rows are
//! in the order of their ids.
use vstd::prelude::*;

use crate::distance::MetricType;
use crate::error::{Field, FileKind, IndexError};
use crate::hnsw_layer;
use crate::id_table;
use crate::id_table::{IdTable, IdTableVecs};
use crate::index_io_util;
use crate::ivf_lists;
use crate::ivf_search;
use crate::ivfflat::{FlatModel, IVFFlatIndex};
use crate::list_table;
use crate::little_endian;
use crate::row_id_filter::RowIdFilter;
use crate::sort;
use crate::varint;
use crate::wire;

verus! {

pub const IVFFLAT_MAGIC: u32 = 0x4956464C;

pub const IVFFLAT_VERSION: u32 = 1;

pub const IVFFLAT_HEADER_SIZE: usize = 64;

pub const FLAG_DELTA_IDS: u32 = 1;

/// List `i` is the first whose vectors do not match its ids, and `e` says how.
pub open spec fn first_bad_list(m: FlatModel, i: int, e: IndexError) -> bool {
    &&& 0 <= i < m.nlist
    &&& forall|k: int|
        0 <= k < i ==> (#[trigger] m.ids[k]).len() * m.d <= usize::MAX && m.vectors[k].len()
            == m.ids[k].len() * m.d
    &&& if m.ids[i].len() * m.d > usize::MAX {
        e == IndexError::VectorLengthOverflow { file: FileKind::IvfFlat }
    } else {
        m.vectors[i].len() != m.ids[i].len() * m.d && e == IndexError::ListVectorLength {
            list_id: i as usize,
            len: m.vectors[i].len() as usize,
            expected: (m.ids[i].len() * m.d) as usize,
        }
    }
}

/// What is wrong with the shape of an index, if something is.
pub open spec fn shape_refused(m: FlatModel, e: IndexError) -> bool {
    if m.d == 0 {
        e == IndexError::DimensionZero
    } else if m.nlist == 0 {
        e == IndexError::NlistZero
    } else if m.ids.len() != m.nlist || m.vectors.len() != m.nlist {
        e == IndexError::ListStorage { file: FileKind::IvfFlat }
    } else {
        match index_io_util::section_size(m.nlist, m.d) {
            Err(err) => e == err,
            Ok(size) => if m.centroids.len() != size {
                e == IndexError::CentroidLength {
                    file: FileKind::IvfFlat,
                    len: m.centroids.len() as usize,
                    expected: size,
                }
            } else {
                exists|i: int| #[trigger] first_bad_list(m, i, e)
            },
        }
    }
}

/// As many lists, centroids and vectors as there should be.
pub open spec fn shape_ok(m: FlatModel) -> bool {
    &&& m.d > 0
    &&& m.nlist > 0
    &&& m.ids.len() == m.nlist
    &&& m.vectors.len() == m.nlist
    &&& m.nlist * m.d <= index_io_util::MAX_SECTION_ELEMENTS
    &&& m.centroids.len() == m.nlist * m.d
    &&& forall|i: int| 0 <= i < m.nlist ==> m.vectors[i].len() == (#[trigger] m.ids[i]).len() * m.d
}

/// Refuses an index whose parts do not fit each other.
pub fn validate_index_shape(index: &IVFFlatIndex) -> (r: Result<(), IndexError>)
    ensures
        match r {
            Ok(_) => shape_ok(index@),
            Err(e) => shape_refused(index@, e) && !shape_ok(index@),
        },
{
    let ghost m = index@;
    if index.d == 0 {
        return Err(IndexError::DimensionZero);
    }
    if index.nlist == 0 {
        return Err(IndexError::NlistZero);
    }
    if index.ids.len() != index.nlist || index.vectors.len() != index.nlist {
        return Err(IndexError::ListStorage { file: FileKind::IvfFlat });
    }
    let centroid_len: usize = match index_io_util::checked_section_size(index.nlist, index.d) {
        Ok(v) => v,
        Err(e) => {
            return Err(e);
        },
    };
    if index.quantizer_centroids.len() != centroid_len {
        return Err(
            IndexError::CentroidLength {
                file: FileKind::IvfFlat,
                len: index.quantizer_centroids.len(),
                expected: centroid_len,
            },
        );
    }
    for i in 0..index.nlist
        invariant
            m == index@,
            m.d > 0,
            m.nlist > 0,
            m.ids.len() == m.nlist,
            m.vectors.len() == m.nlist,
            index_io_util::section_size(m.nlist, m.d) == Ok::<usize, IndexError>(centroid_len),
            m.centroids.len() == centroid_len,
            forall|k: int|
                0 <= k < i ==> (#[trigger] m.ids[k]).len() * m.d <= usize::MAX && m.vectors[k].len()
                    == m.ids[k].len() * m.d,
    {
        assert(m.ids[i as int] == index.ids@[i as int]@);
        assert(m.vectors[i as int] == index.vectors@[i as int]@);
        let stored: usize = index.vectors[i].len();
        let expected: usize = match index.ids[i].len().checked_mul(index.d) {
            Some(v) => v,
            None => {
                let e = IndexError::VectorLengthOverflow { file: FileKind::IvfFlat };
                assert(m.ids[i as int].len() * m.d != stored);
                assert(first_bad_list(m, i as int, e));
                return Err(e);
            },
        };
        if stored != expected {
            let e = IndexError::ListVectorLength { list_id: i, len: stored, expected };
            assert(first_bad_list(m, i as int, e));
            return Err(e);
        }
    }
    Ok(())
}

pub open spec fn header_bytes(m: FlatModel) -> Seq<u8> {
    little_endian::u32_bytes(IVFFLAT_MAGIC) + little_endian::u32_bytes(IVFFLAT_VERSION)
        + little_endian::i32_bytes(m.d as i32) + little_endian::i32_bytes(m.nlist as i32)
        + little_endian::u32_bytes(m.metric.spec_code()) + little_endian::i64_bytes(
        ivf_lists::total_rows(m.ids) as i64,
    ) + little_endian::u32_bytes(FLAG_DELTA_IDS) + list_table::zeros(32)
}

/// The id section of list `i`.
pub open spec fn id_section(m: FlatModel, i: int) -> Seq<u8> {
    let ids = ivf_lists::sorted_ids(m.ids[i]);
    varint::ids_bytes(ids[0], ids)
}

/// List `i` as it is stored.
pub open spec fn payload(m: FlatModel, i: int) -> Seq<u8> {
    if m.ids[i].len() == 0 {
        Seq::empty()
    } else {
        little_endian::i64_bytes(ivf_lists::sorted_ids(m.ids[i])[0]) + little_endian::i32_bytes(
            id_section(m, i).len() as i32,
        ) + id_section(m, i) + little_endian::u32_seq_bytes(
            ivf_lists::sorted_rows(m.vectors[i], m.d as nat, m.ids[i]),
        )
    }
}

pub open spec fn payloads(m: FlatModel) -> Seq<Seq<u8>> {
    Seq::new(m.nlist as nat, |i: int| payload(m, i))
}

/// Where the lists start in a file that starts at `start`.
pub open spec fn data_start(m: FlatModel, start: int) -> int {
    start + 64 + 4 * (m.nlist * m.d) + 16 * m.nlist
}

/// What the table of the file of an index says.
pub open spec fn stored_table(m: FlatModel, start: int) -> IdTable {
    IdTable {
        offsets: Seq::new(
            m.nlist as nat,
            |i: int| list_table::list_offset(payloads(m), data_start(m, start), i) as i64,
        ),
        counts: Seq::new(m.nlist as nat, |i: int| m.ids[i].len() as i32),
        id_lens: Seq::new(m.nlist as nat, |i: int| id_section_len(m, i) as i32),
    }
}

/// How long the id section of list `i` is; nothing for an empty list.
pub open spec fn id_section_len(m: FlatModel, i: int) -> nat {
    if m.ids[i].len() == 0 {
        0
    } else {
        id_section(m, i).len()
    }
}

/// The file of an index that starts at `start`.
pub open spec fn file_bytes(m: FlatModel, start: int) -> Seq<u8> {
    header_bytes(m) + little_endian::u32_seq_bytes(m.centroids) + stored_table(m, start).bytes()
        + wire::concat(payloads(m))
}

/// Every number of the file fits into the place that it has.
pub open spec fn fits(m: FlatModel, start: int) -> bool {
    &&& m.d <= i32::MAX
    &&& m.nlist <= i32::MAX
    &&& ivf_lists::total_rows(m.ids) <= i64::MAX
    &&& forall|i: int| 0 <= i < m.nlist ==> #[trigger] list_fits(m, i)
    &&& list_table::offsets_fit(payloads(m), data_start(m, start))
}

pub open spec fn list_fits(m: FlatModel, i: int) -> bool {
    m.ids[i].len() <= i32::MAX && (m.ids[i].len() > 0 ==> id_section(m, i).len() <= i32::MAX)
}

/// The number of list `i` that does not fit into its place, the first of several.
pub open spec fn list_exceeds(m: FlatModel, i: int, e: IndexError) -> bool {
    if m.ids[i].len() > i32::MAX {
        e == IndexError::LengthExceedsI32 {
            field: Field::ListCount,
            value: m.ids[i].len() as usize,
        }
    } else {
        id_section_len(m, i) > i32::MAX && e == IndexError::LengthExceedsI32 {
            field: Field::IdBytes,
            value: id_section_len(m, i) as usize,
        }
    }
}

/// List `i` is the first one that does not fit, because of `e`.
pub open spec fn is_first_large(m: FlatModel, i: int, e: IndexError) -> bool {
    &&& 0 <= i < m.nlist
    &&& list_exceeds(m, i, e)
    &&& forall|k: int| 0 <= k < i ==> #[trigger] list_fits(m, k)
}

/// The first number of the file that does not fit into its place.
pub open spec fn exceeds(m: FlatModel, start: int, e: IndexError) -> bool {
    if m.d > i32::MAX {
        e == IndexError::LengthExceedsI32 { field: Field::Dimension, value: m.d }
    } else if m.nlist > i32::MAX {
        e == IndexError::LengthExceedsI32 { field: Field::Nlist, value: m.nlist }
    } else if ivf_lists::total_rows(m.ids) > i64::MAX {
        e == IndexError::TooManyVectors
    } else if exists|i: int| 0 <= i < m.nlist && !#[trigger] list_fits(m, i) {
        exists|i: int| #[trigger] is_first_large(m, i, e)
    } else {
        list_table::offset_exceeds(payloads(m), data_start(m, start), e)
    }
}

/// List `i` as it is stored, with the length of its id section.
fn build_list(index: &IVFFlatIndex, i: usize) -> (r: Result<(Vec<u8>, i32), IndexError>)
    requires
        shape_ok(index@),
        i < index@.nlist,
    ensures
        match r {
            Ok((bytes, id_len)) => {
                &&& list_fits(index@, i as int)
                &&& bytes@ == payload(index@, i as int)
                &&& id_len == id_section_len(index@, i as int)
            },
            Err(e) => !list_fits(index@, i as int) && list_exceeds(index@, i as int, e),
        },
{
    let ghost m = index@;
    assert(m.ids[i as int] == index.ids@[i as int]@);
    assert(m.vectors[i as int] == index.vectors@[i as int]@);
    let ids: &Vec<i64> = &index.ids[i];
    let mut bytes: Vec<u8> = Vec::new();
    match index_io_util::usize_to_i32(ids.len(), Field::ListCount) {
        Ok(_) => {},
        Err(e) => {
            return Err(e);
        },
    }
    if ids.len() == 0 {
        return Ok((bytes, 0));
    }
    let order: Vec<usize> = ivf_lists::sort_ids(ids);
    let sorted: Vec<i64> = ivf_lists::pick(ids, &order);
    let vectors: Vec<u32> = ivf_lists::gather(&index.vectors[i], index.d, &order, ids.len());
    let (base, section) = varint::encode_delta_varint_ids(sorted.as_slice());
    let id_len: i32 = match index_io_util::usize_to_i32(section.len(), Field::IdBytes) {
        Ok(v) => v,
        Err(e) => {
            return Err(e);
        },
    };
    little_endian::write_i64_le(&mut bytes, base);
    little_endian::write_i32_le(&mut bytes, id_len);
    list_table::append_bytes(&mut bytes, &section);
    little_endian::write_f32_slice(&mut bytes, vectors.as_slice());
    assert(bytes@ =~= payload(m, i as int));
    Ok((bytes, id_len))
}

/// The table of the file of an index.
fn build_table(
    index: &IVFFlatIndex,
    offsets: Vec<i64>,
    id_lens: Vec<i32>,
    Ghost(start): Ghost<int>,
) -> (r: IdTableVecs)
    requires
        shape_ok(index@),
        forall|i: int| 0 <= i < index@.nlist ==> #[trigger] list_fits(index@, i),
        offsets@ == stored_table(index@, start).offsets,
        id_lens@.len() == index@.nlist,
        forall|i: int|
            0 <= i < index@.nlist ==> #[trigger] id_lens@[i] == id_section_len(index@, i),
    ensures
        r@ == stored_table(index@, start),
        r@.fits(index@.nlist as nat),
{
    let ghost m = index@;
    let mut counts: Vec<i32> = Vec::new();
    for i in 0..index.nlist
        invariant
            m == index@,
            shape_ok(m),
            forall|i: int| 0 <= i < m.nlist ==> #[trigger] list_fits(m, i),
            counts@.len() == i,
            forall|k: int| 0 <= k < i ==> #[trigger] counts@[k] == m.ids[k].len(),
    {
        assert(list_fits(m, i as int));
        assert(m.ids[i as int] == index.ids@[i as int]@);
        counts.push(index.ids[i].len() as i32);
    }
    let t = IdTableVecs { offsets, counts, id_lens };
    proof {
        assert forall|i: int| 0 <= i < m.nlist implies #[trigger] t@.id_lens[i] == stored_table(
            m,
            start,
        ).id_lens[i] && t@.id_lens[i] >= 0 by {
            assert(list_fits(m, i));
        }
        assert forall|i: int| 0 <= i < m.nlist implies #[trigger] t@.counts[i] == stored_table(
            m,
            start,
        ).counts[i] by {
            assert(list_fits(m, i));
        }
        assert(t@ =~= stored_table(m, start));
    }
    t
}

/// Appends the file of an index to `out`, where nothing is appended to it if the index is refused.
#[verifier::rlimit(60)]
pub fn write_ivfflat_index(index: &IVFFlatIndex, out: &mut Vec<u8>) -> (r: Result<(), IndexError>)
    ensures
        match r {
            Ok(_) => {
                &&& shape_ok(index@)
                &&& fits(index@, old(out)@.len() as int)
                &&& final(out)@ == old(out)@ + file_bytes(index@, old(out)@.len() as int)
            },
            Err(e) => {
                &&& final(out)@ == old(out)@
                &&& if shape_ok(index@) {
                    !fits(index@, old(out)@.len() as int) && exceeds(
                        index@,
                        old(out)@.len() as int,
                        e,
                    )
                } else {
                    shape_refused(index@, e)
                }
            },
        },
{
    let ghost m = index@;
    let ghost start = out@.len() as int;
    match validate_index_shape(index) {
        Ok(_) => {},
        Err(e) => {
            return Err(e);
        },
    }
    let d: i32 = match index_io_util::usize_to_i32(index.d, Field::Dimension) {
        Ok(v) => v,
        Err(e) => {
            return Err(e);
        },
    };
    let nlist: i32 = match index_io_util::usize_to_i32(index.nlist, Field::Nlist) {
        Ok(v) => v,
        Err(e) => {
            return Err(e);
        },
    };
    let total: i64 = match ivf_lists::count_rows(&index.ids) {
        Ok(v) => v,
        Err(e) => {
            return Err(e);
        },
    };
    let mut lists: Vec<Vec<u8>> = Vec::new();
    let mut id_lens: Vec<i32> = Vec::new();
    for i in 0..index.nlist
        invariant
            m == index@,
            shape_ok(m),
            m.d <= i32::MAX,
            m.nlist <= i32::MAX,
            ivf_lists::total_rows(m.ids) <= i64::MAX,
            out@ == old(out)@,
            start == old(out)@.len(),
            lists@.len() == i,
            id_lens@.len() == i,
            forall|k: int| 0 <= k < i ==> #[trigger] list_fits(m, k),
            forall|k: int| 0 <= k < i ==> (#[trigger] lists@[k])@ == payload(m, k),
            forall|k: int| 0 <= k < i ==> #[trigger] id_lens@[k] == id_section_len(m, k),
    {
        match build_list(index, i) {
            Ok((bytes, id_len)) => {
                lists.push(bytes);
                id_lens.push(id_len);
            },
            Err(e) => {
                assert(!list_fits(m, i as int));
                assert(is_first_large(m, i as int, e));
                return Err(e);
            },
        }
    }
    assert(ivf_lists::byte_lists(lists@) =~= payloads(m));
    let wide: u128 = (out.len() as u128) + 64 + 4 * (index.quantizer_centroids.len() as u128) + 16
        * (index.nlist as u128);
    assert(wide == data_start(m, start));
    if wide > u64::MAX as u128 {
        proof {
            wire::lemma_concat_none(payloads(m));
            assert(list_table::is_first_too_far(payloads(m), data_start(m, start), 0));
        }
        return Err(IndexError::OffsetExceedsI64 { at: u64::MAX });
    }
    let first: u64 = wide as u64;
    let offsets: Vec<i64> = match list_table::place_lists(&lists, first) {
        Ok(v) => v,
        Err(e) => {
            return Err(e);
        },
    };
    proof {
        assert forall|i: int| 0 <= i < payloads(m).len() implies
            #[trigger] list_table::list_offset(payloads(m), first as int, i) <= i64::MAX by {
            assert(offsets@[i] <= i64::MAX);
        }
        assert(fits(m, start));
        assert(offsets@ =~= stored_table(m, start).offsets);
    }
    let table: IdTableVecs = build_table(index, offsets, id_lens, Ghost(start));
    little_endian::write_u32_le(out, IVFFLAT_MAGIC);
    little_endian::write_u32_le(out, IVFFLAT_VERSION);
    little_endian::write_i32_le(out, d);
    little_endian::write_i32_le(out, nlist);
    little_endian::write_u32_le(out, index.metric.code());
    little_endian::write_i64_le(out, total);
    little_endian::write_u32_le(out, FLAG_DELTA_IDS);
    list_table::append_zeros(out, 32);
    assert(out@ =~= old(out)@ + header_bytes(m));
    little_endian::write_f32_slice(out, index.quantizer_centroids.as_slice());
    id_table::write_table(out, &table, index.nlist);
    list_table::append_lists(out, &lists);
    assert(out@ =~= old(out)@ + file_bytes(m, start));
    Ok(())
}

/// What the header of a file says.
pub struct FlatHeader {
    pub d: usize,
    pub nlist: usize,
    pub metric: MetricType,
    pub total_vectors: i64,
    pub delta_ids: bool,
}

/// Reads the header, field by field.
pub open spec fn parse_header(s: Seq<u8>) -> Result<FlatHeader, IndexError> {
    if s.len() < 4 {
        Err(IndexError::UnexpectedEof)
    } else if little_endian::u32_at(s, 0) != IVFFLAT_MAGIC {
        Err(IndexError::FileMagic { file: FileKind::IvfFlat, magic: little_endian::u32_at(s, 0) })
    } else if s.len() < 8 {
        Err(IndexError::UnexpectedEof)
    } else if little_endian::u32_at(s, 4) != IVFFLAT_VERSION {
        Err(IndexError::FileVersion { file: FileKind::IvfFlat, version: little_endian::u32_at(s, 4) })
    } else if s.len() < 12 {
        Err(IndexError::UnexpectedEof)
    } else if little_endian::i32_at(s, 8) <= 0 {
        Err(
            IndexError::HeaderNotPositive {
                field: Field::Dimension,
                found: little_endian::i32_at(s, 8),
            },
        )
    } else if s.len() < 16 {
        Err(IndexError::UnexpectedEof)
    } else if little_endian::i32_at(s, 12) <= 0 {
        Err(
            IndexError::HeaderNotPositive {
                field: Field::Nlist,
                found: little_endian::i32_at(s, 12),
            },
        )
    } else if s.len() < 20 {
        Err(IndexError::UnexpectedEof)
    } else {
        match MetricType::spec_from_code(little_endian::u32_at(s, 16)) {
            None => Err(IndexError::UnknownMetric { code: little_endian::u32_at(s, 16) }),
            Some(metric) => if s.len() < 64 {
                Err(IndexError::UnexpectedEof)
            } else {
                Ok(
                    FlatHeader {
                        d: little_endian::i32_at(s, 8) as usize,
                        nlist: little_endian::i32_at(s, 12) as usize,
                        metric,
                        total_vectors: little_endian::i64_at(s, 20),
                        delta_ids: little_endian::u32_at(s, 28) % 2 == 1,
                    },
                )
            },
        }
    }
}

/// Where a list stands and how long it is; nothing for an empty list.
pub open spec fn list_place(table: IdTable, d: usize, nlist: usize, list_id: usize) -> Result<
    Option<(u64, usize)>,
    IndexError,
> {
    if list_id >= nlist {
        Err(IndexError::ListIdRange { list_id, nlist })
    } else if table.counts[list_id as int] == 0 {
        Ok(None)
    } else if table.offsets[list_id as int] < 0 {
        Err(
            IndexError::NegativeListOffset {
                offset: table.offsets[list_id as int],
                list_id,
            },
        )
    } else if table.counts[list_id as int] * (d * 4) > usize::MAX {
        Err(IndexError::ListBytesOverflow)
    } else if 12 + table.id_lens[list_id as int] + table.counts[list_id as int] * (d * 4)
        > usize::MAX {
        Err(IndexError::PayloadOverflow { file: FileKind::IvfFlat })
    } else {
        Ok(
            Some(
                (
                    table.offsets[list_id as int] as u64,
                    (12 + table.id_lens[list_id as int] + table.counts[list_id as int] * (d
                        * 4)) as usize,
                ),
            ),
        )
    }
}

/// The rows of a list with `count` rows and an id section of `id_len` bytes.
pub open spec fn parse_payload(s: Seq<u8>, count: nat, id_len: nat) -> Result<
    (Seq<i64>, Seq<u32>),
    IndexError,
> {
    if little_endian::i32_at(s, 8) != id_len {
        Err(IndexError::IdBytesMismatch { file: FileKind::IvfFlat })
    } else {
        match varint::ids_parse(
            s.subrange(12, 12int + id_len),
            little_endian::i64_at(s, 0),
            0,
            Seq::empty(),
            count,
        ) {
            Err(e) => Err(e),
            Ok((ids, _)) => Ok((ids, little_endian::u32_seq_of(s.skip(12int + id_len)))),
        }
    }
}

/// Reads a file of plain inverted lists. The bytes are handed in by the caller, who learns from
/// the reader which ones are needed.
pub struct IVFFlatIndexReader {
    pub d: usize,
    pub nlist: usize,
    pub metric: MetricType,
    pub total_vectors: i64,
    pub quantizer_centroids: Vec<u32>,
    pub list_offsets: Vec<i64>,
    pub list_counts: Vec<i32>,
    pub list_id_bytes_lens: Vec<i32>,
    pub delta_ids: bool,
    pub loaded: bool,
}

impl IVFFlatIndexReader {
    /// Neither centroids nor the table of the lists have been read.
    pub open spec fn nothing_loaded(self) -> bool {
        &&& !self.loaded
        &&& self.quantizer_centroids@.len() == 0
        &&& self.list_offsets@.len() == 0
        &&& self.list_counts@.len() == 0
        &&& self.list_id_bytes_lens@.len() == 0
    }

    pub open spec fn header(self) -> FlatHeader {
        FlatHeader {
            d: self.d,
            nlist: self.nlist,
            metric: self.metric,
            total_vectors: self.total_vectors,
            delta_ids: self.delta_ids,
        }
    }

    pub open spec fn table(self) -> IdTable {
        IdTable {
            offsets: self.list_offsets@,
            counts: self.list_counts@,
            id_lens: self.list_id_bytes_lens@,
        }
    }

    /// The sizes in the header are positive; once the table has been loaded it has an entry for
    /// each list, without negative lengths.
    pub open spec fn well_formed(self) -> bool {
        &&& 0 < self.d <= i32::MAX
        &&& 0 < self.nlist <= i32::MAX
        &&& self.loaded ==> {
            &&& self.quantizer_centroids@.len() == self.nlist * self.d
            &&& self.table().fits(self.nlist as nat)
        }
    }

    /// Opens a file by its header, the first 64 bytes.
    pub fn open(header: &[u8]) -> (r: Result<IVFFlatIndexReader, IndexError>)
        ensures
            match r {
                Ok(reader) => {
                    &&& parse_header(header@) == Ok::<FlatHeader, IndexError>(reader.header())
                    &&& reader.nothing_loaded()
                    &&& reader.well_formed()
                },
                Err(e) => parse_header(header@) == Err::<FlatHeader, IndexError>(e),
            },
    {
        if header.len() < 4 {
            return Err(IndexError::UnexpectedEof);
        }
        let magic: u32 = little_endian::read_u32_le(header, 0);
        if magic != IVFFLAT_MAGIC {
            return Err(IndexError::FileMagic { file: FileKind::IvfFlat, magic });
        }
        if header.len() < 8 {
            return Err(IndexError::UnexpectedEof);
        }
        let version: u32 = little_endian::read_u32_le(header, 4);
        if version != IVFFLAT_VERSION {
            return Err(IndexError::FileVersion { file: FileKind::IvfFlat, version });
        }
        if header.len() < 12 {
            return Err(IndexError::UnexpectedEof);
        }
        let d: usize = match index_io_util::validate_positive_i32(
            little_endian::read_i32_le(header, 8),
            Field::Dimension,
        ) {
            Ok(v) => v,
            Err(e) => {
                return Err(e);
            },
        };
        if header.len() < 16 {
            return Err(IndexError::UnexpectedEof);
        }
        let nlist: usize = match index_io_util::validate_positive_i32(
            little_endian::read_i32_le(header, 12),
            Field::Nlist,
        ) {
            Ok(v) => v,
            Err(e) => {
                return Err(e);
            },
        };
        if header.len() < 20 {
            return Err(IndexError::UnexpectedEof);
        }
        let code: u32 = little_endian::read_u32_le(header, 16);
        let metric: MetricType = match MetricType::from_code(code) {
            Some(v) => v,
            None => {
                return Err(IndexError::UnknownMetric { code });
            },
        };
        if header.len() < IVFFLAT_HEADER_SIZE {
            return Err(IndexError::UnexpectedEof);
        }
        let total_vectors: i64 = little_endian::read_i64_le(header, 20);
        let flags: u32 = little_endian::read_u32_le(header, 28);
        Ok(
            IVFFlatIndexReader {
                d,
                nlist,
                metric,
                total_vectors,
                quantizer_centroids: Vec::new(),
                list_offsets: Vec::new(),
                list_counts: Vec::new(),
                list_id_bytes_lens: Vec::new(),
                delta_ids: flags % 2 == 1,
                loaded: false,
            },
        )
    }

    /// Where the centroids and the table stand, and how long they are together.
    pub fn section_place(&self) -> (r: Result<(u64, usize), IndexError>)
        requires
            self.well_formed(),
        ensures
            match index_io_util::section_size(self.nlist, self.d) {
                Err(e) => r == Err::<(u64, usize), IndexError>(e),
                Ok(size) => if 4 * size + 16 * self.nlist > usize::MAX {
                    r == Err::<(u64, usize), IndexError>(IndexError::SectionSizeOverflow)
                } else {
                    r == Ok::<(u64, usize), IndexError>((64, (4 * size + 16 * self.nlist) as usize))
                },
            },
    {
        match id_table::section_len(self.d, self.nlist) {
            Ok(len) => Ok((64, len)),
            Err(e) => Err(e),
        }
    }

    /// Takes in the centroids and the table, unless that was done before. A reader that refuses
    /// them stays as it is.
    pub fn ensure_loaded(&mut self, section: &[u8]) -> (r: Result<(), IndexError>)
        requires
            old(self).well_formed(),
        ensures
            final(self).well_formed(),
            final(self).header() == old(self).header(),
            if old(self).loaded {
                r is Ok && *final(self) == *old(self)
            } else {
                match r {
                    Ok(_) => final(self).loaded && id_table::parse_section(
                        section@,
                        old(self).d,
                        old(self).nlist,
                    ) == Ok::<(Seq<u32>, IdTable), IndexError>(
                        (final(self).quantizer_centroids@, final(self).table()),
                    ),
                    Err(e) => *final(self) == *old(self) && id_table::parse_section(
                        section@,
                        old(self).d,
                        old(self).nlist,
                    ) == Err::<(Seq<u32>, IdTable), IndexError>(e),
                }
            },
    {
        if self.loaded {
            return Ok(());
        }
        let (centroids, table): (Vec<u32>, IdTableVecs) = match id_table::read_section(
            section,
            self.d,
            self.nlist,
        ) {
            Ok(v) => v,
            Err(e) => {
                return Err(e);
            },
        };
        let ghost read = table@;
        let IdTableVecs { offsets, counts, id_lens } = table;
        self.quantizer_centroids = centroids;
        self.list_offsets = offsets;
        self.list_counts = counts;
        self.list_id_bytes_lens = id_lens;
        assert(self.table() =~= read);
        self.loaded = true;
        Ok(())
    }

    /// Where a list stands and how long it is; nothing for an empty list.
    pub fn list_place(&self, list_id: usize) -> (r: Result<Option<(u64, usize)>, IndexError>)
        requires
            self.well_formed(),
            self.loaded,
        ensures
            r == list_place(self.table(), self.d, self.nlist, list_id),
    {
        if list_id >= self.nlist {
            return Err(IndexError::ListIdRange { list_id, nlist: self.nlist });
        }
        let count: usize = self.list_counts[list_id] as usize;
        if count == 0 {
            return Ok(None);
        }
        let offset: u64 = match index_io_util::checked_list_offset(
            self.list_offsets[list_id],
            list_id,
        ) {
            Ok(v) => v,
            Err(e) => {
                return Err(e);
            },
        };
        let id_len: u128 = self.list_id_bytes_lens[list_id] as u128;
        let row_bytes: u128 = self.d as u128 * 4;
        proof {
            assert(count * (self.d * 4) <= 0x7fff_ffff * (0x7fff_ffff * 4)) by (nonlinear_arith)
                requires
                    0 <= count <= 0x7fff_ffff,
                    0 <= self.d <= 0x7fff_ffff,
            ;
        }
        let vector_bytes: u128 = count as u128 * row_bytes;
        if vector_bytes > usize::MAX as u128 {
            return Err(IndexError::ListBytesOverflow);
        }
        let len: u128 = 12 + id_len + vector_bytes;
        if len > usize::MAX as u128 {
            return Err(IndexError::PayloadOverflow { file: FileKind::IvfFlat });
        }
        Ok(Some((offset, len as usize)))
    }

    /// The ids and the vectors of a list, given the bytes that stand at its place.
    pub fn read_inverted_list(&self, list_id: usize, payload: &[u8]) -> (r: Result<
        (Vec<i64>, Vec<u32>),
        IndexError,
    >)
        requires
            self.well_formed(),
            self.loaded,
        ensures
            match list_place(self.table(), self.d, self.nlist, list_id) {
                Err(e) => r == Err::<(Vec<i64>, Vec<u32>), IndexError>(e),
                Ok(None) => r matches Ok((ids, vectors)) && ids@.len() == 0 && vectors@.len() == 0,
                Ok(Some((_, len))) => if payload@.len() != len {
                    r == Err::<(Vec<i64>, Vec<u32>), IndexError>(IndexError::UnexpectedEof)
                } else if !self.delta_ids {
                    r == Err::<(Vec<i64>, Vec<u32>), IndexError>(IndexError::DeltaIdsOnly)
                } else {
                    match r {
                        Ok((ids, vectors)) => parse_payload(
                            payload@,
                            self.list_counts@[list_id as int] as nat,
                            self.list_id_bytes_lens@[list_id as int] as nat,
                        ) == Ok::<(Seq<i64>, Seq<u32>), IndexError>((ids@, vectors@)) && ids@.len()
                            == self.list_counts@[list_id as int] && vectors@.len() == ids@.len()
                            * self.d,
                        Err(e) => parse_payload(
                            payload@,
                            self.list_counts@[list_id as int] as nat,
                            self.list_id_bytes_lens@[list_id as int] as nat,
                        ) == Err::<(Seq<i64>, Seq<u32>), IndexError>(e),
                    }
                },
            },
    {
        let len: usize = match self.list_place(list_id) {
            Ok(Some((_, len))) => len,
            Ok(None) => {
                return Ok((Vec::new(), Vec::new()));
            },
            Err(e) => {
                return Err(e);
            },
        };
        if payload.len() != len {
            return Err(IndexError::UnexpectedEof);
        }
        if !self.delta_ids {
            return Err(IndexError::DeltaIdsOnly);
        }
        let count: usize = self.list_counts[list_id] as usize;
        let id_len: usize = self.list_id_bytes_lens[list_id] as usize;
        let ghost rows = count * (self.d * 4);
        proof {
            assert(0 <= rows) by (nonlinear_arith)
                requires
                    0 <= count,
                    0 <= self.d,
                    rows == count * (self.d * 4),
            ;
        }
        let base: i64 = little_endian::read_i64_le(payload, 0);
        let encoded: i32 = little_endian::read_i32_le(payload, 8);
        if encoded < 0 || encoded as usize != id_len {
            return Err(IndexError::IdBytesMismatch { file: FileKind::IvfFlat });
        }
        let ids: Vec<i64> = match varint::decode_id_prefix(
            base,
            list_table::part_of(payload, 12, 12 + id_len),
            count,
        ) {
            Ok((ids, _)) => ids,
            Err(e) => {
                return Err(e);
            },
        };
        let vectors: Vec<u32> = index_io_util::patterns_of(
            list_table::part_of(payload, 12 + id_len, payload.len()),
        );
        proof {
            varint::decoded_ids_are_sorted(
                payload@.subrange(12, 12 + id_len),
                base,
                count as nat,
            );
            assert(payload@.subrange(12 + id_len, payload@.len() as int) =~= payload@.skip(
                12 + id_len,
            ));
            assert(rows == 4 * (count * self.d)) by (nonlinear_arith)
                requires
                    rows == count * (self.d * 4),
            ;
        }
        Ok((ids, vectors))
    }
}

pub open spec fn stored_header(m: FlatModel) -> FlatHeader {
    FlatHeader {
        d: m.d,
        nlist: m.nlist,
        metric: m.metric,
        total_vectors: ivf_lists::total_rows(m.ids) as i64,
        delta_ids: true,
    }
}

proof fn lemma_header(m: FlatModel)
    requires
        0 < m.d <= i32::MAX,
        0 < m.nlist <= i32::MAX,
        ivf_lists::total_rows(m.ids) <= i64::MAX,
    ensures
        header_bytes(m).len() == 64,
        parse_header(header_bytes(m)) == Ok::<FlatHeader, IndexError>(stored_header(m)),
{
    let s = header_bytes(m);
    let p1 = little_endian::u32_bytes(IVFFLAT_MAGIC);
    let p2 = little_endian::u32_bytes(IVFFLAT_VERSION);
    let p3 = little_endian::i32_bytes(m.d as i32);
    let p4 = little_endian::i32_bytes(m.nlist as i32);
    let p5 = little_endian::u32_bytes(m.metric.spec_code());
    let p6 = little_endian::i64_bytes(ivf_lists::total_rows(m.ids) as i64);
    let p7 = little_endian::u32_bytes(FLAG_DELTA_IDS);
    little_endian::lemma_lens();
    wire::lemma_occurs_whole(s);
    wire::lemma_occurs_split(s, 0, p1 + p2 + p3 + p4 + p5 + p6 + p7, list_table::zeros(32));
    wire::lemma_occurs_split(s, 0, p1 + p2 + p3 + p4 + p5 + p6, p7);
    wire::lemma_occurs_split(s, 0, p1 + p2 + p3 + p4 + p5, p6);
    wire::lemma_occurs_split(s, 0, p1 + p2 + p3 + p4, p5);
    wire::lemma_occurs_split(s, 0, p1 + p2 + p3, p4);
    wire::lemma_occurs_split(s, 0, p1 + p2, p3);
    wire::lemma_occurs_split(s, 0, p1, p2);
    little_endian::read_back_u32(s, 0, IVFFLAT_MAGIC);
    little_endian::read_back_u32(s, 4, IVFFLAT_VERSION);
    little_endian::read_back_i32(s, 8, m.d as i32);
    little_endian::read_back_i32(s, 12, m.nlist as i32);
    little_endian::read_back_u32(s, 16, m.metric.spec_code());
    little_endian::read_back_i64(s, 20, ivf_lists::total_rows(m.ids) as i64);
    little_endian::read_back_u32(s, 28, FLAG_DELTA_IDS);
    m.metric.code_round_trip(m.metric.spec_code());
}

proof fn lemma_table_fits(m: FlatModel, start: int)
    requires
        fits(m, start),
    ensures
        stored_table(m, start).fits(m.nlist as nat),
{
    let t = stored_table(m, start);
    assert forall|i: int| 0 <= i < m.nlist implies #[trigger] t.counts[i] >= 0 by {
        assert(list_fits(m, i));
    }
    assert forall|i: int| 0 <= i < m.nlist implies #[trigger] t.id_lens[i] >= 0 by {
        assert(list_fits(m, i));
    }
}

proof fn lemma_payload(m: FlatModel, i: int)
    requires
        shape_ok(m),
        0 <= i < m.nlist,
        list_fits(m, i),
        m.ids[i].len() > 0,
    ensures
        payload(m, i).len() == 12 + id_section(m, i).len() + m.ids[i].len() * (m.d * 4),
        parse_payload(payload(m, i), m.ids[i].len(), id_section(m, i).len()) == Ok::<
            (Seq<i64>, Seq<u32>),
            IndexError,
        >(
            (
                ivf_lists::sorted_ids(m.ids[i]),
                ivf_lists::sorted_rows(m.vectors[i], m.d as nat, m.ids[i]),
            ),
        ),
{
    let s = payload(m, i);
    let ids = ivf_lists::sorted_ids(m.ids[i]);
    let rows = ivf_lists::sorted_rows(m.vectors[i], m.d as nat, m.ids[i]);
    let section = id_section(m, i);
    let a = little_endian::i64_bytes(ids[0]);
    let b = little_endian::i32_bytes(section.len() as i32);
    let c = little_endian::u32_seq_bytes(rows);
    ivf_lists::lemma_sorted_ids(m.ids[i]);
    ivf_lists::lemma_gathered_len(
        m.vectors[i],
        m.d as nat,
        ivf_lists::id_order(m.ids[i]),
        m.ids[i].len(),
    );
    little_endian::lemma_lens();
    little_endian::lemma_u32_seq_bytes_len(rows);
    assert(m.ids[i].len() * (m.d * 4) == 4 * (m.ids[i].len() * m.d)) by (nonlinear_arith);
    wire::lemma_occurs_whole(s);
    wire::lemma_occurs_split(s, 0, a + b + section, c);
    wire::lemma_occurs_split(s, 0, a + b, section);
    wire::lemma_occurs_split(s, 0, a, b);
    little_endian::read_back_i64(s, 0, ids[0]);
    little_endian::read_back_i32(s, 8, section.len() as i32);
    assert(s.subrange(12, 12int + section.len()) =~= section);
    assert(s.skip(12int + section.len()) =~= c);
    varint::ids_round_trip(ids[0], ids, Seq::empty());
    assert(section + Seq::<u8>::empty() =~= section);
    little_endian::u32_seq_round_trip(rows);
}

proof fn lemma_file_head(m: FlatModel)
    requires
        shape_ok(m),
        fits(m, 0),
    ensures
        header_bytes(m).len() == 64,
        file_bytes(m, 0).take(64) == header_bytes(m),
        file_bytes(m, 0).skip(64) == little_endian::u32_seq_bytes(m.centroids) + stored_table(
            m,
            0,
        ).bytes() + wire::concat(payloads(m)),
        parse_header(file_bytes(m, 0).take(64)) == Ok::<FlatHeader, IndexError>(stored_header(m)),
{
    let s = file_bytes(m, 0);
    lemma_header(m);
    assert(s.take(64) =~= header_bytes(m));
    assert(s.skip(64) =~= little_endian::u32_seq_bytes(m.centroids) + stored_table(m, 0).bytes()
        + wire::concat(payloads(m)));
}

proof fn lemma_file_section(m: FlatModel)
    requires
        shape_ok(m),
        fits(m, 0),
    ensures
        id_table::parse_section(file_bytes(m, 0).skip(64), m.d, m.nlist) == Ok::<
            (Seq<u32>, IdTable),
            IndexError,
        >((m.centroids, stored_table(m, 0))),
{
    lemma_file_head(m);
    lemma_table_fits(m, 0);
    id_table::section_round_trip(
        m.centroids,
        stored_table(m, 0),
        m.d,
        m.nlist,
        wire::concat(payloads(m)),
    );
}

proof fn lemma_file_list(m: FlatModel, i: usize)
    requires
        shape_ok(m),
        fits(m, 0),
        i < m.nlist,
        payload(m, i as int).len() <= usize::MAX,
    ensures
        ({
            let s = file_bytes(m, 0);
            let t = stored_table(m, 0);
            if m.ids[i as int].len() == 0 {
                list_place(t, m.d, m.nlist, i) == Ok::<Option<(u64, usize)>, IndexError>(None)
            } else {
                &&& list_place(t, m.d, m.nlist, i) == Ok::<Option<(u64, usize)>, IndexError>(
                    Some((t.offsets[i as int] as u64, payload(m, i as int).len() as usize)),
                )
                &&& wire::occurs(s, t.offsets[i as int] as int, payload(m, i as int))
                &&& parse_payload(
                    payload(m, i as int),
                    t.counts[i as int] as nat,
                    t.id_lens[i as int] as nat,
                ) == Ok::<(Seq<i64>, Seq<u32>), IndexError>(
                    (
                        ivf_lists::sorted_ids(m.ids[i as int]),
                        ivf_lists::sorted_rows(m.vectors[i as int], m.d as nat, m.ids[i as int]),
                    ),
                )
            }
        }),
{
    let s = file_bytes(m, 0);
    let head = header_bytes(m);
    let centroids = little_endian::u32_seq_bytes(m.centroids);
    let t = stored_table(m, 0);
    let lists = wire::concat(payloads(m));
    assert(list_fits(m, i as int));
    let offset = list_table::list_offset(payloads(m), data_start(m, 0), i as int);
    assert(offset <= i64::MAX);
    if m.ids[i as int].len() > 0 {
        lemma_file_head(m);
        little_endian::lemma_u32_seq_bytes_len(m.centroids);
        id_table::lemma_table_len(t, 0);
        lemma_payload(m, i as int);
        wire::lemma_occurs_whole(s);
        wire::lemma_occurs_split(s, 0, head + centroids + t.bytes(), lists);
        wire::lemma_concat_part(s, data_start(m, 0), payloads(m), i as int);
    }
}

/// An index that was written to a file of its own reads back: its header, its centroids, and of
/// each list the place and, from the bytes at that place, the ids and vectors in the order of the
/// ids.
pub open spec fn reads_back(m: FlatModel, i: usize) -> bool {
    let s = file_bytes(m, 0);
    let t = stored_table(m, 0);
    &&& parse_header(s.take(64)) == Ok::<FlatHeader, IndexError>(stored_header(m))
    &&& id_table::parse_section(s.skip(64), m.d, m.nlist) == Ok::<(Seq<u32>, IdTable), IndexError>(
        (m.centroids, t),
    )
    &&& if m.ids[i as int].len() == 0 {
        list_place(t, m.d, m.nlist, i) == Ok::<Option<(u64, usize)>, IndexError>(None)
    } else {
        &&& list_place(t, m.d, m.nlist, i) == Ok::<Option<(u64, usize)>, IndexError>(
            Some((t.offsets[i as int] as u64, payload(m, i as int).len() as usize)),
        )
        &&& wire::occurs(s, t.offsets[i as int] as int, payload(m, i as int))
        &&& parse_payload(
            payload(m, i as int),
            t.counts[i as int] as nat,
            t.id_lens[i as int] as nat,
        ) == Ok::<(Seq<i64>, Seq<u32>), IndexError>(
            (
                ivf_lists::sorted_ids(m.ids[i as int]),
                ivf_lists::sorted_rows(
                    m.vectors[i as int],
                    m.d as nat,
                    m.ids[i as int],
                ),
            ),
        )
    }
}

/// Every index of a good shape that fits into a file reads back from one of its own.
pub proof fn flat_file_round_trip(m: FlatModel, i: usize)
    requires
        shape_ok(m),
        fits(m, 0),
        i < m.nlist,
        payload(m, i as int).len() <= usize::MAX,
    ensures
        reads_back(m, i),
{
    lemma_file_head(m);
    lemma_file_section(m);
    lemma_file_list(m, i);
}

/// Searches lists that were read, for many queries: `lists[i]` holds the ids of list `loaded[i]`,
/// and each query looks at those that it probes.
pub fn search_batch_ivfflat_reader_filter<T: RowIdFilter, F: Fn(usize, usize, usize) -> u32>(
    probes: &Vec<Vec<usize>>,
    loaded: &Vec<usize>,
    lists: &Vec<Vec<i64>>,
    k: usize,
    filter: Option<&T>,
    distance: &F,
) -> (r: (Vec<i64>, Vec<u32>))
    requires
        loaded@.len() == lists@.len(),
        ivf_search::gives_batch_distances(
            *distance,
            probes@.len(),
            ivf_search::row_counts(lists@),
        ),
        ivf_search::batch_can_be_ranked(
            k,
            ivf_search::batch_distances(*distance),
            ivf_search::probe_lists(probes@),
            loaded@,
            lists@,
            filter,
        ),
    ensures
        ({
            let hits = ivf_search::flat_results(
                ivf_search::probe_lists(probes@),
                loaded@,
                lists@,
                k,
                filter,
                ivf_search::batch_distances(*distance),
            );
            r.0@ == ivf_search::all_ids(hits, k) && r.1@ == ivf_search::all_dists(hits, k)
        }),
{
    ivf_search::search_flat_batch(probes, loaded, lists, k, filter, distance)
}

/// Searches lists that were read in the order of one query's probes.
pub fn search_with_filter<T: RowIdFilter, F: Fn(usize, usize) -> u32>(
    lists: &Vec<Vec<i64>>,
    k: usize,
    filter: Option<&T>,
    distance: &F,
) -> (r: (Vec<i64>, Vec<u32>))
    requires
        ivf_search::id_rows_agree(*distance, hnsw_layer::pair_distances(*distance), lists@),
        ivf_search::rows_can_be_ranked(
            k,
            hnsw_layer::pair_distances(*distance),
            lists@,
            sort::positions(0, lists@.len() as int),
            filter,
        ),
    ensures
        ({
            let hits = ivf_search::flat_hits(
                lists@,
                sort::positions(0, lists@.len() as int),
                k,
                filter,
                hnsw_layer::pair_distances(*distance),
            );
            r.0@ == ivf_search::padded_ids(hits, k) && r.1@ == ivf_search::padded_dists(hits, k)
        }),
{
    ivf_search::search_flat_lists(lists, k, filter, distance)
}

} // verus!

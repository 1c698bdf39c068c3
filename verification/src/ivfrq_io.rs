//! Files of inverted lists of one-bit codes.
//!
//! A file is a header of 64 bytes, the centroids, a table with 16 bytes for each list (where it
//! starts, how many rows it holds, how long its id section is), and the lists. A list that is not
//! empty holds its first id, the length of its id section, the section, its codes, and twelve
//! bytes of factors for each row; rows are in the order of their ids.
use vstd::prelude::*;

use crate::distance::MetricType;
use crate::error::{Field, FileKind, IndexError};
use crate::graph_lists;
use crate::id_table;
use crate::id_table::{IdTable, IdTableVecs};
use crate::index_io_util;
use crate::ivf_lists;
use crate::ivf_search;
use crate::ivfrq;
use crate::ivfrq::{IVFRQIndex, RQCodeFactors, RqModel};
use crate::list_table;
use crate::little_endian;
use crate::row_id_filter::RowIdFilter;
use crate::sort;
use crate::varint;
use crate::wire;

verus! {

pub const IVF_RQ_MAGIC: u32 = 0x49565251;

pub const IVF_RQ_VERSION: u32 = 1;

pub const IVF_RQ_HEADER_SIZE: usize = 64;

/// Ids are stored by their differences.
pub const REQUIRED_FLAGS: u32 = 1;

/// How many bytes the factors of a row take.
pub const FACTOR_BYTES: usize = 12;

pub const IVF_RQ_NUM_BITS_ONE: u32 = 1;

pub const IVF_RQ_ROTATION_TYPE_KAC: u32 = 1;

pub const IVF_RQ_FACTOR_LAYOUT_RABITQ_V1: u32 = 1;

/// A format flag that is known, though no file that is read has it: longer codes follow.
pub const FORMAT_FLAG_EX_CODES_PRESENT: u32 = 1;

/// A format flag that is known, though no file that is read has it: error factors follow.
pub const FORMAT_FLAG_ERROR_FACTOR_PRESENT: u32 = 2;

pub const CURRENT_FORMAT_FLAGS: u32 = 0;

/// List `i` has a code and factors for each row.
pub open spec fn list_ok(m: RqModel, i: int) -> bool {
    m.codes[i].len() == m.ids[i].len() * ivfrq::code_bytes(m.d) && m.factors[i].len()
        == m.ids[i].len()
}

/// List `i` is the first one that is not complete, and `e` says what is wrong with it.
pub open spec fn first_bad_list(m: RqModel, i: int, e: IndexError) -> bool {
    let expected = m.ids[i].len() * ivfrq::code_bytes(m.d);
    &&& 0 <= i < m.nlist
    &&& forall|k: int| 0 <= k < i ==> #[trigger] list_ok(m, k)
    &&& if expected > usize::MAX {
        e == IndexError::ListBytesOverflow
    } else if m.codes[i].len() != expected {
        e == IndexError::ListCodeLength {
            file: FileKind::IvfRq,
            list_id: i as usize,
            len: m.codes[i].len() as usize,
            expected: expected as usize,
        }
    } else {
        m.factors[i].len() != m.ids[i].len() && e == IndexError::ListFactorCount {
            list_id: i as usize,
            len: m.factors[i].len() as usize,
            expected: m.ids[i].len() as usize,
        }
    }
}

/// What is wrong with the shape of an index, if something is.
pub open spec fn shape_refused(m: RqModel, e: IndexError) -> bool {
    if m.d == 0 {
        e == IndexError::DimensionZero
    } else if m.nlist == 0 {
        e == IndexError::NlistZero
    } else if m.ids.len() != m.nlist || m.codes.len() != m.nlist || m.factors.len() != m.nlist {
        e == IndexError::ListStorage { file: FileKind::IvfRq }
    } else {
        match index_io_util::section_size(m.nlist, m.d) {
            Err(err) => e == err,
            Ok(size) => if m.centroids.len() != size {
                e == IndexError::CentroidLength {
                    file: FileKind::IvfRq,
                    len: m.centroids.len() as usize,
                    expected: size,
                }
            } else {
                exists|i: int| #[trigger] first_bad_list(m, i, e)
            },
        }
    }
}

/// As many lists, centroids, codes and factors as there should be.
pub open spec fn shape_ok(m: RqModel) -> bool {
    &&& m.d > 0
    &&& m.nlist > 0
    &&& m.well_formed()
    &&& m.nlist * m.d <= index_io_util::MAX_SECTION_ELEMENTS
    &&& m.centroids.len() == m.nlist * m.d
    &&& forall|i: int| 0 <= i < m.nlist ==> #[trigger] list_ok(m, i)
}

/// Refuses an index whose parts do not fit each other.
pub fn validate_index_shape(index: &IVFRQIndex) -> (r: Result<(), IndexError>)
    ensures
        match r {
            Ok(_) => shape_ok(index@),
            Err(e) => shape_refused(index@, e) && !shape_ok(index@),
        },
{
    let ghost m = index@;
    if index.d == 0 {
        return Err(IndexError::DimensionZero);
    }
    if index.nlist == 0 {
        return Err(IndexError::NlistZero);
    }
    if index.ids.len() != index.nlist || index.codes.len() != index.nlist || index.factors.len()
        != index.nlist {
        return Err(IndexError::ListStorage { file: FileKind::IvfRq });
    }
    let centroid_len: usize = match index_io_util::checked_section_size(index.nlist, index.d) {
        Ok(v) => v,
        Err(e) => {
            return Err(e);
        },
    };
    if index.quantizer_centroids.len() != centroid_len {
        return Err(
            IndexError::CentroidLength {
                file: FileKind::IvfRq,
                len: index.quantizer_centroids.len(),
                expected: centroid_len,
            },
        );
    }
    let code_size: usize = index.code_size();
    for i in 0..index.nlist
        invariant
            m == index@,
            m.d > 0,
            m.nlist > 0,
            m.well_formed(),
            code_size == ivfrq::code_bytes(m.d),
            index_io_util::section_size(m.nlist, m.d) == Ok::<usize, IndexError>(centroid_len),
            m.centroids.len() == centroid_len,
            forall|k: int| 0 <= k < i ==> #[trigger] list_ok(m, k),
    {
        assert(m.ids[i as int] == index.ids@[i as int]@);
        assert(m.codes[i as int] == index.codes@[i as int]@);
        assert(m.factors[i as int] == index.factors@[i as int]@);
        let count: usize = index.ids[i].len();
        let stored: usize = index.codes[i].len();
        let expected: usize = match index_io_util::checked_list_bytes(count, code_size) {
            Ok(v) => v,
            Err(e) => {
                assert(m.ids[i as int].len() * ivfrq::code_bytes(m.d) != stored);
                assert(first_bad_list(m, i as int, e));
                assert(!list_ok(m, i as int));
                return Err(e);
            },
        };
        if stored != expected {
            let e = IndexError::ListCodeLength { file: FileKind::IvfRq, list_id: i, len: stored, expected };
            assert(first_bad_list(m, i as int, e));
            assert(!list_ok(m, i as int));
            return Err(e);
        }
        if index.factors[i].len() != count {
            let e = IndexError::ListFactorCount {
                list_id: i,
                len: index.factors[i].len(),
                expected: count,
            };
            assert(first_bad_list(m, i as int, e));
            assert(!list_ok(m, i as int));
            return Err(e);
        }
    }
    Ok(())
}

pub open spec fn factor_bytes(f: RQCodeFactors) -> Seq<u8> {
    little_endian::u32_bytes(f.residual_norm_sqr) + little_endian::u32_bytes(f.vector_norm_sqr)
        + little_endian::u32_bytes(f.dp_multiplier)
}

pub open spec fn factor_parts(factors: Seq<RQCodeFactors>) -> Seq<Seq<u8>> {
    Seq::new(factors.len(), |i: int| factor_bytes(factors[i]))
}

/// The factors that stand one behind the other in `s`.
pub open spec fn factors_of(s: Seq<u8>) -> Seq<RQCodeFactors> {
    Seq::new(
        s.len() / 12,
        |i: int|
            RQCodeFactors {
                residual_norm_sqr: little_endian::u32_at(s, 12 * i),
                vector_norm_sqr: little_endian::u32_at(s, 12 * i + 4),
                dp_multiplier: little_endian::u32_at(s, 12 * i + 8),
            },
    )
}

/// Appends factors.
pub fn write_factors(out: &mut Vec<u8>, factors: &Vec<RQCodeFactors>)
    ensures
        final(out)@ == old(out)@ + wire::concat(factor_parts(factors@)),
{
    let ghost start = out@;
    let ghost parts = factor_parts(factors@);
    proof {
        wire::lemma_concat_none(parts);
        assert(start + Seq::<u8>::empty() =~= start);
    }
    for i in 0..factors.len()
        invariant
            parts == factor_parts(factors@),
            out@ == start + wire::concat(parts.take(i as int)),
    {
        let ghost before = out@;
        little_endian::write_u32_le(out, factors[i].residual_norm_sqr);
        little_endian::write_u32_le(out, factors[i].vector_norm_sqr);
        little_endian::write_u32_le(out, factors[i].dp_multiplier);
        proof {
            wire::lemma_concat_next(parts, i as int);
            assert(out@ =~= before + parts[i as int]);
            assert(out@ =~= start + wire::concat(parts.take(i + 1)));
        }
    }
    proof {
        wire::lemma_concat_all(parts);
    }
}

/// Reads factors.
pub fn bytes_to_factors(bytes: &[u8]) -> (r: Result<Vec<RQCodeFactors>, IndexError>)
    ensures
        match r {
            Ok(factors) => bytes@.len() % 12 == 0 && factors@ == factors_of(bytes@),
            Err(e) => bytes@.len() % 12 != 0 && e == IndexError::FactorsUnaligned,
        },
{
    if bytes.len() % FACTOR_BYTES != 0 {
        return Err(IndexError::FactorsUnaligned);
    }
    let n: usize = bytes.len() / FACTOR_BYTES;
    let mut factors: Vec<RQCodeFactors> = Vec::new();
    for i in 0..n
        invariant
            12 * n == bytes@.len(),
            bytes@.len() <= usize::MAX,
            factors@ == factors_of(bytes@).take(i as int),
    {
        factors.push(
            RQCodeFactors {
                residual_norm_sqr: little_endian::read_u32_le(bytes, 12 * i),
                vector_norm_sqr: little_endian::read_u32_le(bytes, 12 * i + 4),
                dp_multiplier: little_endian::read_u32_le(bytes, 12 * i + 8),
            },
        );
        assert(factors@ =~= factors_of(bytes@).take(i + 1));
    }
    assert(factors@ =~= factors_of(bytes@));
    Ok(factors)
}

proof fn lemma_factors_len(factors: Seq<RQCodeFactors>, k: int)
    requires
        0 <= k <= factors.len(),
    ensures
        wire::concat(factor_parts(factors).take(k)).len() == 12 * k,
        wire::concat(factor_parts(factors)).len() == 12 * factors.len(),
{
    little_endian::lemma_lens();
    let parts = factor_parts(factors);
    assert forall|i: int| 0 <= i < parts.len() implies (#[trigger] parts[i]).len() == 12 by {
        assert(parts[i] == factor_bytes(factors[i]));
    }
    wire::lemma_concat_len(parts, 12);
    let some = parts.take(k);
    assert forall|i: int| 0 <= i < some.len() implies (#[trigger] some[i]).len() == 12 by {
        assert(some[i] == parts[i]);
    }
    wire::lemma_concat_len(some, 12);
}

/// Stored factors read back.
pub proof fn factors_round_trip(factors: Seq<RQCodeFactors>)
    ensures
        wire::concat(factor_parts(factors)).len() == 12 * factors.len(),
        factors_of(wire::concat(factor_parts(factors))) == factors,
{
    let parts = factor_parts(factors);
    let s = wire::concat(parts);
    lemma_factors_len(factors, 0);
    wire::lemma_occurs_whole(s);
    assert forall|i: int| 0 <= i < factors.len() implies #[trigger] factors_of(s)[i]
        == factors[i] by {
        let f = factors[i];
        lemma_factors_len(factors, i);
        wire::lemma_concat_part(s, 0, parts, i);
        let a = little_endian::u32_bytes(f.residual_norm_sqr);
        let b = little_endian::u32_bytes(f.vector_norm_sqr);
        let c = little_endian::u32_bytes(f.dp_multiplier);
        little_endian::lemma_lens();
        wire::lemma_occurs_split(s, 12 * i, a + b, c);
        wire::lemma_occurs_split(s, 12 * i, a, b);
        little_endian::read_back_u32(s, 12 * i, f.residual_norm_sqr);
        little_endian::read_back_u32(s, 12 * i + 4, f.vector_norm_sqr);
        little_endian::read_back_u32(s, 12 * i + 8, f.dp_multiplier);
    }
    assert(factors_of(s) =~= factors);
}

pub open spec fn header_bytes(m: RqModel) -> Seq<u8> {
    little_endian::u32_bytes(IVF_RQ_MAGIC) + little_endian::u32_bytes(IVF_RQ_VERSION)
        + little_endian::i32_bytes(m.d as i32) + little_endian::i32_bytes(m.nlist as i32)
        + little_endian::u32_bytes(m.metric.spec_code()) + little_endian::u32_bytes(REQUIRED_FLAGS)
        + little_endian::i64_bytes(ivf_lists::total_rows(m.ids) as i64) + little_endian::u64_bytes(
        m.rotation_seed,
    ) + little_endian::u32_bytes(m.rotation_rounds) + little_endian::i32_bytes(
        ivfrq::code_bytes(m.d) as i32,
    ) + little_endian::u32_bytes(IVF_RQ_NUM_BITS_ONE) + little_endian::u32_bytes(
        IVF_RQ_ROTATION_TYPE_KAC,
    ) + little_endian::u32_bytes(IVF_RQ_FACTOR_LAYOUT_RABITQ_V1) + little_endian::u32_bytes(
        CURRENT_FORMAT_FLAGS,
    )
}

/// The id section of list `i`.
pub open spec fn id_section(m: RqModel, i: int) -> Seq<u8> {
    let ids = ivf_lists::sorted_ids(m.ids[i]);
    varint::ids_bytes(ids[0], ids)
}

/// How long the id section of list `i` is; nothing for an empty list.
pub open spec fn id_section_len(m: RqModel, i: int) -> nat {
    if m.ids[i].len() == 0 {
        0
    } else {
        id_section(m, i).len()
    }
}

/// The codes of list `i` in the order of the ids.
pub open spec fn sorted_codes(m: RqModel, i: int) -> Seq<u8> {
    ivf_lists::sorted_rows(m.codes[i], ivfrq::code_bytes(m.d), m.ids[i])
}

/// The factors of list `i` in the order of the ids.
pub open spec fn sorted_factors(m: RqModel, i: int) -> Seq<RQCodeFactors> {
    sort::picked(m.factors[i], ivf_lists::id_order(m.ids[i]))
}

/// List `i` as it is stored.
pub open spec fn payload(m: RqModel, i: int) -> Seq<u8> {
    if m.ids[i].len() == 0 {
        Seq::empty()
    } else {
        little_endian::i64_bytes(ivf_lists::sorted_ids(m.ids[i])[0]) + little_endian::i32_bytes(
            id_section(m, i).len() as i32,
        ) + id_section(m, i) + sorted_codes(m, i) + wire::concat(factor_parts(sorted_factors(m, i)))
    }
}

pub open spec fn payloads(m: RqModel) -> Seq<Seq<u8>> {
    Seq::new(m.nlist as nat, |i: int| payload(m, i))
}

/// Where the lists start in a file that starts at `start`.
pub open spec fn data_start(m: RqModel, start: int) -> int {
    start + 64 + 4 * (m.nlist * m.d) + 16 * m.nlist
}

/// What the table of the file of an index says.
pub open spec fn stored_table(m: RqModel, start: int) -> IdTable {
    IdTable {
        offsets: Seq::new(
            m.nlist as nat,
            |i: int| list_table::list_offset(payloads(m), data_start(m, start), i) as i64,
        ),
        counts: Seq::new(m.nlist as nat, |i: int| m.ids[i].len() as i32),
        id_lens: Seq::new(m.nlist as nat, |i: int| id_section_len(m, i) as i32),
    }
}

/// The file of an index that starts at `start`.
pub open spec fn file_bytes(m: RqModel, start: int) -> Seq<u8> {
    header_bytes(m) + little_endian::u32_seq_bytes(m.centroids) + stored_table(m, start).bytes()
        + wire::concat(payloads(m))
}

pub open spec fn list_fits(m: RqModel, i: int) -> bool {
    m.ids[i].len() <= i32::MAX && id_section_len(m, i) <= i32::MAX
}

/// Every number of the file fits into the place that it has.
pub open spec fn fits(m: RqModel, start: int) -> bool {
    &&& m.d <= i32::MAX
    &&& m.nlist <= i32::MAX
    &&& ivf_lists::total_rows(m.ids) <= i64::MAX
    &&& forall|i: int| 0 <= i < m.nlist ==> #[trigger] list_fits(m, i)
    &&& list_table::offsets_fit(payloads(m), data_start(m, start))
}

/// The number of list `i` that does not fit into its place, the first of several.
pub open spec fn list_exceeds(m: RqModel, i: int, e: IndexError) -> bool {
    if m.ids[i].len() > i32::MAX {
        e == IndexError::LengthExceedsI32 {
            field: Field::ListCount,
            value: m.ids[i].len() as usize,
        }
    } else {
        id_section_len(m, i) > i32::MAX && e == IndexError::LengthExceedsI32 {
            field: Field::IdBytes,
            value: id_section_len(m, i) as usize,
        }
    }
}

/// List `i` is the first one that does not fit, because of `e`.
pub open spec fn is_first_large(m: RqModel, i: int, e: IndexError) -> bool {
    &&& 0 <= i < m.nlist
    &&& list_exceeds(m, i, e)
    &&& forall|k: int| 0 <= k < i ==> #[trigger] list_fits(m, k)
}

/// The first number of the file that does not fit into its place.
pub open spec fn exceeds(m: RqModel, start: int, e: IndexError) -> bool {
    if ivf_lists::total_rows(m.ids) > i64::MAX {
        e == IndexError::TooManyVectors
    } else if m.d > i32::MAX {
        e == IndexError::LengthExceedsI32 { field: Field::Dimension, value: m.d }
    } else if m.nlist > i32::MAX {
        e == IndexError::LengthExceedsI32 { field: Field::Nlist, value: m.nlist }
    } else if exists|i: int| 0 <= i < m.nlist && !#[trigger] list_fits(m, i) {
        exists|i: int| #[trigger] is_first_large(m, i, e)
    } else {
        list_table::offset_exceeds(payloads(m), data_start(m, start), e)
    }
}

/// List `i` as it is stored, with the length of its id section.
fn build_list(index: &IVFRQIndex, i: usize) -> (r: Result<(Vec<u8>, i32), IndexError>)
    requires
        shape_ok(index@),
        i < index@.nlist,
    ensures
        match r {
            Ok((bytes, id_len)) => {
                &&& list_fits(index@, i as int)
                &&& bytes@ == payload(index@, i as int)
                &&& id_len == id_section_len(index@, i as int)
            },
            Err(e) => !list_fits(index@, i as int) && list_exceeds(index@, i as int, e),
        },
{
    let ghost m = index@;
    assert(m.ids[i as int] == index.ids@[i as int]@);
    assert(m.codes[i as int] == index.codes@[i as int]@);
    assert(m.factors[i as int] == index.factors@[i as int]@);
    assert(list_ok(m, i as int));
    let ids: &Vec<i64> = &index.ids[i];
    let mut bytes: Vec<u8> = Vec::new();
    match index_io_util::usize_to_i32(ids.len(), Field::ListCount) {
        Ok(_) => {},
        Err(e) => {
            return Err(e);
        },
    }
    if ids.len() == 0 {
        return Ok((bytes, 0));
    }
    let order: Vec<usize> = ivf_lists::sort_ids(ids);
    let sorted: Vec<i64> = ivf_lists::pick(ids, &order);
    let codes: Vec<u8> = ivf_lists::gather(&index.codes[i], index.code_size(), &order, ids.len());
    let factors: Vec<RQCodeFactors> = ivf_lists::pick(&index.factors[i], &order);
    let (base, section) = varint::encode_delta_varint_ids(sorted.as_slice());
    let id_len: i32 = match index_io_util::usize_to_i32(section.len(), Field::IdBytes) {
        Ok(v) => v,
        Err(e) => {
            return Err(e);
        },
    };
    little_endian::write_i64_le(&mut bytes, base);
    little_endian::write_i32_le(&mut bytes, id_len);
    list_table::append_bytes(&mut bytes, &section);
    list_table::append_bytes(&mut bytes, &codes);
    write_factors(&mut bytes, &factors);
    assert(bytes@ =~= payload(m, i as int));
    Ok((bytes, id_len))
}

/// The lists of an index as they are stored, with the lengths of their id sections.
fn build_lists(index: &IVFRQIndex) -> (r: Result<(Vec<Vec<u8>>, Vec<i32>), IndexError>)
    requires
        shape_ok(index@),
    ensures
        match r {
            Ok((lists, id_lens)) => {
                &&& forall|i: int| 0 <= i < index@.nlist ==> #[trigger] list_fits(index@, i)
                &&& ivf_lists::byte_lists(lists@) == payloads(index@)
                &&& id_lens@.len() == index@.nlist
                &&& forall|i: int|
                    0 <= i < index@.nlist ==> #[trigger] id_lens@[i] == id_section_len(index@, i)
            },
            Err(e) => exists|i: int|
                0 <= i < index@.nlist && !#[trigger] list_fits(index@, i) && is_first_large(
                    index@,
                    i,
                    e,
                ),
        },
{
    let ghost m = index@;
    let mut lists: Vec<Vec<u8>> = Vec::new();
    let mut id_lens: Vec<i32> = Vec::new();
    for i in 0..index.nlist
        invariant
            m == index@,
            shape_ok(m),
            lists@.len() == i,
            id_lens@.len() == i,
            forall|k: int| 0 <= k < i ==> #[trigger] list_fits(m, k),
            forall|k: int| 0 <= k < i ==> (#[trigger] lists@[k])@ == payload(m, k),
            forall|k: int| 0 <= k < i ==> #[trigger] id_lens@[k] == id_section_len(m, k),
    {
        match build_list(index, i) {
            Ok((bytes, id_len)) => {
                lists.push(bytes);
                id_lens.push(id_len);
            },
            Err(e) => {
                assert(!list_fits(m, i as int));
                assert(is_first_large(m, i as int, e));
                return Err(e);
            },
        }
    }
    assert(ivf_lists::byte_lists(lists@) =~= payloads(m));
    Ok((lists, id_lens))
}

/// The table of the file of an index.
fn build_table(
    index: &IVFRQIndex,
    offsets: Vec<i64>,
    id_lens: Vec<i32>,
    Ghost(start): Ghost<int>,
) -> (r: IdTableVecs)
    requires
        shape_ok(index@),
        forall|i: int| 0 <= i < index@.nlist ==> #[trigger] list_fits(index@, i),
        offsets@ == stored_table(index@, start).offsets,
        id_lens@.len() == index@.nlist,
        forall|i: int|
            0 <= i < index@.nlist ==> #[trigger] id_lens@[i] == id_section_len(index@, i),
    ensures
        r@ == stored_table(index@, start),
        r@.fits(index@.nlist as nat),
{
    let ghost m = index@;
    let mut counts: Vec<i32> = Vec::new();
    for i in 0..index.nlist
        invariant
            m == index@,
            shape_ok(m),
            forall|i: int| 0 <= i < m.nlist ==> #[trigger] list_fits(m, i),
            counts@.len() == i,
            forall|k: int| 0 <= k < i ==> #[trigger] counts@[k] == m.ids[k].len(),
    {
        assert(list_fits(m, i as int));
        assert(m.ids[i as int] == index.ids@[i as int]@);
        counts.push(index.ids[i].len() as i32);
    }
    let t = IdTableVecs { offsets, counts, id_lens };
    proof {
        assert forall|i: int| 0 <= i < m.nlist implies #[trigger] t@.id_lens[i] == stored_table(
            m,
            start,
        ).id_lens[i] && t@.id_lens[i] >= 0 by {
            assert(list_fits(m, i));
        }
        assert forall|i: int| 0 <= i < m.nlist implies #[trigger] t@.counts[i] == stored_table(
            m,
            start,
        ).counts[i] by {
            assert(list_fits(m, i));
        }
        assert(t@ =~= stored_table(m, start));
    }
    t
}

/// Appends the header.
fn write_header(index: &IVFRQIndex, d: i32, nlist: i32, total: i64, out: &mut Vec<u8>)
    requires
        d == index@.d,
        nlist == index@.nlist,
        total == ivf_lists::total_rows(index@.ids),
    ensures
        final(out)@ == old(out)@ + header_bytes(index@),
{
    little_endian::write_u32_le(out, IVF_RQ_MAGIC);
    little_endian::write_u32_le(out, IVF_RQ_VERSION);
    little_endian::write_i32_le(out, d);
    little_endian::write_i32_le(out, nlist);
    little_endian::write_u32_le(out, index.metric.code());
    little_endian::write_u32_le(out, REQUIRED_FLAGS);
    little_endian::write_i64_le(out, total);
    little_endian::write_u64_le(out, index.rotation_seed);
    little_endian::write_u32_le(out, index.rotation_rounds);
    little_endian::write_i32_le(out, index.code_size() as i32);
    little_endian::write_u32_le(out, IVF_RQ_NUM_BITS_ONE);
    little_endian::write_u32_le(out, IVF_RQ_ROTATION_TYPE_KAC);
    little_endian::write_u32_le(out, IVF_RQ_FACTOR_LAYOUT_RABITQ_V1);
    little_endian::write_u32_le(out, CURRENT_FORMAT_FLAGS);
    assert(out@ =~= old(out)@ + header_bytes(index@));
}

/// Appends the file of an index to `out`, where nothing is appended to it if the index is refused.
#[verifier::rlimit(40)]
pub fn write_ivfrq_index(index: &IVFRQIndex, out: &mut Vec<u8>) -> (r: Result<(), IndexError>)
    ensures
        match r {
            Ok(_) => {
                &&& shape_ok(index@)
                &&& fits(index@, old(out)@.len() as int)
                &&& final(out)@ == old(out)@ + file_bytes(index@, old(out)@.len() as int)
            },
            Err(e) => {
                &&& final(out)@ == old(out)@
                &&& if shape_ok(index@) {
                    !fits(index@, old(out)@.len() as int) && exceeds(
                        index@,
                        old(out)@.len() as int,
                        e,
                    )
                } else {
                    shape_refused(index@, e)
                }
            },
        },
{
    let ghost m = index@;
    let ghost start = out@.len() as int;
    match validate_index_shape(index) {
        Ok(_) => {},
        Err(e) => {
            return Err(e);
        },
    }
    let total: i64 = match ivf_lists::count_rows(&index.ids) {
        Ok(v) => v,
        Err(e) => {
            return Err(e);
        },
    };
    let d: i32 = match index_io_util::usize_to_i32(index.d, Field::Dimension) {
        Ok(v) => v,
        Err(e) => {
            return Err(e);
        },
    };
    let nlist: i32 = match index_io_util::usize_to_i32(index.nlist, Field::Nlist) {
        Ok(v) => v,
        Err(e) => {
            return Err(e);
        },
    };
    let (lists, id_lens): (Vec<Vec<u8>>, Vec<i32>) = match build_lists(index) {
        Ok(v) => v,
        Err(e) => {
            return Err(e);
        },
    };
    let wide: u128 = (out.len() as u128) + 64 + 4 * (index.quantizer_centroids.len() as u128) + 16
        * (index.nlist as u128);
    assert(wide == data_start(m, start));
    if wide > u64::MAX as u128 {
        proof {
            wire::lemma_concat_none(payloads(m));
            assert(list_table::is_first_too_far(payloads(m), data_start(m, start), 0));
        }
        return Err(IndexError::OffsetExceedsI64 { at: u64::MAX });
    }
    let first: u64 = wide as u64;
    let offsets: Vec<i64> = match list_table::place_lists(&lists, first) {
        Ok(v) => v,
        Err(e) => {
            return Err(e);
        },
    };
    proof {
        assert forall|i: int| 0 <= i < payloads(m).len() implies
            #[trigger] list_table::list_offset(payloads(m), first as int, i) <= i64::MAX by {
            assert(offsets@[i] <= i64::MAX);
        }
        assert(fits(m, start));
        assert(offsets@ =~= stored_table(m, start).offsets);
    }
    let table: IdTableVecs = build_table(index, offsets, id_lens, Ghost(start));
    write_header(index, d, nlist, total, out);
    little_endian::write_f32_slice(out, index.quantizer_centroids.as_slice());
    id_table::write_table(out, &table, index.nlist);
    list_table::append_lists(out, &lists);
    assert(out@ =~= old(out)@ + file_bytes(m, start));
    Ok(())
}

/// Why codes of this format are not read, if there is a reason.
pub open spec fn format_refused(
    num_bits: u32,
    rotation_type: u32,
    factor_layout: u32,
    format_flags: u32,
) -> Option<IndexError> {
    if num_bits != 1 && num_bits != 2 && num_bits != 4 && num_bits != 8 {
        Some(IndexError::RqNumBits { code: num_bits })
    } else if rotation_type != IVF_RQ_ROTATION_TYPE_KAC {
        Some(IndexError::RqRotationType { code: rotation_type })
    } else if factor_layout != IVF_RQ_FACTOR_LAYOUT_RABITQ_V1 {
        Some(IndexError::RqFactorLayout { code: factor_layout })
    } else if format_flags >= 4 {
        Some(IndexError::RqFormatFlags { flags: (format_flags - format_flags % 4) as u32 })
    } else if num_bits != IVF_RQ_NUM_BITS_ONE || format_flags != CURRENT_FORMAT_FLAGS {
        Some(IndexError::RqOptionalSections { code: num_bits, flags: format_flags })
    } else {
        None
    }
}

/// Refuses codes of a format that is not read.
pub fn validate_rq_format(
    num_bits: u32,
    rotation_type: u32,
    factor_layout: u32,
    format_flags: u32,
) -> (r: Result<(), IndexError>)
    ensures
        match r {
            Ok(_) => format_refused(
                num_bits,
                rotation_type,
                factor_layout,
                format_flags,
            ) is None,
            Err(e) => format_refused(num_bits, rotation_type, factor_layout, format_flags) == Some(
                e,
            ),
        },
{
    if num_bits != 1 && num_bits != 2 && num_bits != 4 && num_bits != 8 {
        return Err(IndexError::RqNumBits { code: num_bits });
    }
    if rotation_type != IVF_RQ_ROTATION_TYPE_KAC {
        return Err(IndexError::RqRotationType { code: rotation_type });
    }
    if factor_layout != IVF_RQ_FACTOR_LAYOUT_RABITQ_V1 {
        return Err(IndexError::RqFactorLayout { code: factor_layout });
    }
    if format_flags >= 4 {
        return Err(IndexError::RqFormatFlags { flags: format_flags - format_flags % 4 });
    }
    if num_bits != IVF_RQ_NUM_BITS_ONE || format_flags != CURRENT_FORMAT_FLAGS {
        return Err(IndexError::RqOptionalSections { code: num_bits, flags: format_flags });
    }
    Ok(())
}

/// Refuses a number of bits that queries are not rounded to.
pub fn validate_query_bits(query_bits: usize) -> (r: Result<(), IndexError>)
    ensures
        match r {
            Ok(_) => query_bits == 0 || query_bits == 4 || query_bits == 8,
            Err(e) => query_bits != 0 && query_bits != 4 && query_bits != 8 && e
                == IndexError::QueryBits { value: query_bits },
        },
{
    if query_bits == 0 || query_bits == 4 || query_bits == 8 {
        Ok(())
    } else {
        Err(IndexError::QueryBits { value: query_bits })
    }
}

/// What the header of a file says.
pub struct RqHeader {
    pub d: usize,
    pub nlist: usize,
    pub metric: MetricType,
    pub total_vectors: i64,
    pub rotation_seed: u64,
    pub rotation_rounds: u32,
    pub code_size: usize,
}

/// Reads the front of the header: dimension, number of lists and metric.
pub open spec fn parse_front(s: Seq<u8>) -> Result<(usize, usize, MetricType), IndexError> {
    if s.len() < 4 {
        Err(IndexError::UnexpectedEof)
    } else if little_endian::u32_at(s, 0) != IVF_RQ_MAGIC {
        Err(IndexError::FileMagic { file: FileKind::IvfRq, magic: little_endian::u32_at(s, 0) })
    } else if s.len() < 8 {
        Err(IndexError::UnexpectedEof)
    } else if little_endian::u32_at(s, 4) != IVF_RQ_VERSION {
        Err(IndexError::FileVersion { file: FileKind::IvfRq, version: little_endian::u32_at(s, 4) })
    } else {
        match graph_lists::positive_at(s, 8, Field::Dimension) {
            Err(e) => Err(e),
            Ok(d) => match graph_lists::positive_at(s, 12, Field::Nlist) {
                Err(e) => Err(e),
                Ok(nlist) => if s.len() < 20 {
                    Err(IndexError::UnexpectedEof)
                } else {
                    match MetricType::spec_from_code(little_endian::u32_at(s, 16)) {
                        None => Err(
                            IndexError::UnknownMetric { code: little_endian::u32_at(s, 16) },
                        ),
                        Some(metric) => Ok((d, nlist, metric)),
                    }
                },
            },
        }
    }
}

/// Why the flags of a file are refused, if there is a reason.
pub open spec fn flags_refused(flags: u32) -> Option<IndexError> {
    if flags >= 2 {
        Some(IndexError::FileFlags { file: FileKind::IvfRq, flags: (flags - flags % 2) as u32 })
    } else if flags != REQUIRED_FLAGS {
        Some(IndexError::FileFlagsMissing { file: FileKind::IvfRq })
    } else {
        None
    }
}

/// Reads the header, field by field; then the code size, the format and the flags must be known.
pub open spec fn parse_header(s: Seq<u8>) -> Result<RqHeader, IndexError> {
    match parse_front(s) {
        Err(e) => Err(e),
        Ok((d, nlist, metric)) => if s.len() < 32 {
            Err(IndexError::UnexpectedEof)
        } else if little_endian::i64_at(s, 24) < 0 {
            Err(IndexError::NegativeTotal { offset: little_endian::i64_at(s, 24) })
        } else {
            match graph_lists::positive_at(s, 44, Field::CodeSize) {
                Err(e) => Err(e),
                Ok(code_size) => if s.len() < 64 {
                    Err(IndexError::UnexpectedEof)
                } else if code_size != ivfrq::code_bytes(d) {
                    Err(
                        IndexError::CodeSize {
                            len: code_size,
                            expected: ivfrq::code_bytes(d) as usize,
                        },
                    )
                } else {
                    match format_refused(
                        little_endian::u32_at(s, 48),
                        little_endian::u32_at(s, 52),
                        little_endian::u32_at(s, 56),
                        little_endian::u32_at(s, 60),
                    ) {
                        Some(e) => Err(e),
                        None => match flags_refused(little_endian::u32_at(s, 20)) {
                            Some(e) => Err(e),
                            None => Ok(
                                RqHeader {
                                    d,
                                    nlist,
                                    metric,
                                    total_vectors: little_endian::i64_at(s, 24),
                                    rotation_seed: little_endian::u64_at(s, 32),
                                    rotation_rounds: little_endian::u32_at(s, 40),
                                    code_size,
                                },
                            ),
                        },
                    }
                },
            }
        },
    }
}

fn read_front(header: &[u8]) -> (r: Result<(usize, usize, MetricType), IndexError>)
    ensures
        r == parse_front(header@),
        r matches Ok((d, nlist, _)) ==> 0 < d <= i32::MAX && 0 < nlist <= i32::MAX && header@.len()
            >= 20,
{
    if header.len() < 4 {
        return Err(IndexError::UnexpectedEof);
    }
    let magic: u32 = little_endian::read_u32_le(header, 0);
    if magic != IVF_RQ_MAGIC {
        return Err(IndexError::FileMagic { file: FileKind::IvfRq, magic });
    }
    if header.len() < 8 {
        return Err(IndexError::UnexpectedEof);
    }
    let version: u32 = little_endian::read_u32_le(header, 4);
    if version != IVF_RQ_VERSION {
        return Err(IndexError::FileVersion { file: FileKind::IvfRq, version });
    }
    let d: usize = match graph_lists::read_positive(header, 8, Field::Dimension) {
        Ok(v) => v,
        Err(e) => {
            return Err(e);
        },
    };
    let nlist: usize = match graph_lists::read_positive(header, 12, Field::Nlist) {
        Ok(v) => v,
        Err(e) => {
            return Err(e);
        },
    };
    if header.len() < 20 {
        return Err(IndexError::UnexpectedEof);
    }
    let code: u32 = little_endian::read_u32_le(header, 16);
    match MetricType::from_code(code) {
        Some(metric) => Ok((d, nlist, metric)),
        None => Err(IndexError::UnknownMetric { code }),
    }
}

/// Where a list stands and how long it is; nothing for an empty list.
pub open spec fn list_place(t: IdTable, code_size: usize, nlist: usize, list_id: usize) -> Result<
    Option<(u64, usize)>,
    IndexError,
> {
    let i = list_id as int;
    let len = 12 + t.id_lens[i] + t.counts[i] * code_size + t.counts[i] * 12;
    if list_id >= nlist {
        Err(IndexError::ListIdRange { list_id, nlist })
    } else if t.counts[i] == 0 {
        Ok(None)
    } else if t.offsets[i] < 0 {
        Err(IndexError::NegativeListOffset { offset: t.offsets[i], list_id })
    } else if t.counts[i] * code_size > usize::MAX || t.counts[i] * 12 > usize::MAX {
        Err(IndexError::ListBytesOverflow)
    } else if len > usize::MAX {
        Err(IndexError::PayloadOverflow { file: FileKind::IvfRq })
    } else {
        Ok(Some((t.offsets[i] as u64, len as usize)))
    }
}

/// A list that was read.
pub struct RQReadList {
    pub list_id: usize,
    pub ids: Vec<i64>,
    pub codes: Vec<u8>,
    pub factors: Vec<RQCodeFactors>,
}

/// The rows of a list with `count` rows and an id section of `id_len` bytes.
pub open spec fn parse_payload(s: Seq<u8>, count: nat, id_len: nat, code_size: nat) -> Result<
    (Seq<i64>, Seq<u8>, Seq<RQCodeFactors>),
    IndexError,
> {
    let ids_end = 12int + id_len;
    let codes_end = ids_end + count * code_size;
    if little_endian::i32_at(s, 8) != id_len {
        Err(IndexError::IdBytesMismatch { file: FileKind::IvfRq })
    } else {
        match varint::ids_of_section(s.subrange(12, ids_end), little_endian::i64_at(s, 0), count) {
            Err(e) => Err(e),
            Ok(ids) => Ok((ids, s.subrange(ids_end, codes_end), factors_of(s.skip(codes_end)))),
        }
    }
}

/// Reads a file of inverted lists of one-bit codes. The bytes are handed in by the caller, who
/// learns from the reader which ones are needed.
pub struct IVFRQIndexReader {
    pub d: usize,
    pub nlist: usize,
    pub metric: MetricType,
    pub total_vectors: i64,
    pub rotation_seed: u64,
    pub rotation_rounds: u32,
    pub code_size: usize,
    pub num_bits: u32,
    pub rotation_type: u32,
    pub factor_layout: u32,
    pub format_flags: u32,
    pub quantizer_centroids: Vec<u32>,
    pub list_offsets: Vec<i64>,
    pub list_counts: Vec<i32>,
    pub list_id_bytes_lens: Vec<i32>,
    pub loaded: bool,
}

impl IVFRQIndexReader {
    /// Neither centroids nor the table of the lists have been read.
    pub open spec fn nothing_loaded(self) -> bool {
        &&& !self.loaded
        &&& self.quantizer_centroids@.len() == 0
        &&& self.list_offsets@.len() == 0
        &&& self.list_counts@.len() == 0
        &&& self.list_id_bytes_lens@.len() == 0
    }

    pub open spec fn header(self) -> RqHeader {
        RqHeader {
            d: self.d,
            nlist: self.nlist,
            metric: self.metric,
            total_vectors: self.total_vectors,
            rotation_seed: self.rotation_seed,
            rotation_rounds: self.rotation_rounds,
            code_size: self.code_size,
        }
    }

    pub open spec fn table(self) -> IdTable {
        IdTable {
            offsets: self.list_offsets@,
            counts: self.list_counts@,
            id_lens: self.list_id_bytes_lens@,
        }
    }

    /// The sizes in the header are positive and fit each other; once the table has been loaded it
    /// has an entry for each list, without negative lengths.
    pub open spec fn well_formed(self) -> bool {
        &&& 0 < self.d <= i32::MAX
        &&& 0 < self.nlist <= i32::MAX
        &&& self.code_size == ivfrq::code_bytes(self.d)
        &&& self.num_bits == IVF_RQ_NUM_BITS_ONE
        &&& self.rotation_type == IVF_RQ_ROTATION_TYPE_KAC
        &&& self.factor_layout == IVF_RQ_FACTOR_LAYOUT_RABITQ_V1
        &&& self.format_flags == CURRENT_FORMAT_FLAGS
        &&& self.loaded ==> {
            &&& self.quantizer_centroids@.len() == self.nlist * self.d
            &&& self.table().fits(self.nlist as nat)
        }
    }

    /// Opens a file by its header, the first 64 bytes.
    pub fn open(header: &[u8]) -> (r: Result<IVFRQIndexReader, IndexError>)
        ensures
            match r {
                Ok(reader) => {
                    &&& parse_header(header@) == Ok::<RqHeader, IndexError>(reader.header())
                    &&& reader.nothing_loaded()
                    &&& reader.well_formed()
                },
                Err(e) => parse_header(header@) == Err::<RqHeader, IndexError>(e),
            },
    {
        let (d, nlist, metric): (usize, usize, MetricType) = match read_front(header) {
            Ok(v) => v,
            Err(e) => {
                return Err(e);
            },
        };
        if header.len() < 32 {
            return Err(IndexError::UnexpectedEof);
        }
        let flags: u32 = little_endian::read_u32_le(header, 20);
        let total_vectors: i64 = little_endian::read_i64_le(header, 24);
        if total_vectors < 0 {
            return Err(IndexError::NegativeTotal { offset: total_vectors });
        }
        let code_size: usize = match graph_lists::read_positive(header, 44, Field::CodeSize) {
            Ok(v) => v,
            Err(e) => {
                return Err(e);
            },
        };
        if header.len() < IVF_RQ_HEADER_SIZE {
            return Err(IndexError::UnexpectedEof);
        }
        let expected: usize = ivfrq::code_size_of(d);
        if code_size != expected {
            return Err(IndexError::CodeSize { len: code_size, expected });
        }
        match validate_rq_format(
            little_endian::read_u32_le(header, 48),
            little_endian::read_u32_le(header, 52),
            little_endian::read_u32_le(header, 56),
            little_endian::read_u32_le(header, 60),
        ) {
            Ok(_) => {},
            Err(e) => {
                return Err(e);
            },
        }
        if flags >= 2 {
            return Err(IndexError::FileFlags { file: FileKind::IvfRq, flags: flags - flags % 2 });
        }
        if flags != REQUIRED_FLAGS {
            return Err(IndexError::FileFlagsMissing { file: FileKind::IvfRq });
        }
        Ok(
            IVFRQIndexReader {
                d,
                nlist,
                metric,
                total_vectors,
                rotation_seed: little_endian::read_u64_le(header, 32),
                rotation_rounds: little_endian::read_u32_le(header, 40),
                code_size,
                num_bits: little_endian::read_u32_le(header, 48),
                rotation_type: little_endian::read_u32_le(header, 52),
                factor_layout: little_endian::read_u32_le(header, 56),
                format_flags: little_endian::read_u32_le(header, 60),
                quantizer_centroids: Vec::new(),
                list_offsets: Vec::new(),
                list_counts: Vec::new(),
                list_id_bytes_lens: Vec::new(),
                loaded: false,
            },
        )
    }

    /// Where the centroids and the table stand, and how long they are together.
    pub fn section_place(&self) -> (r: Result<(u64, usize), IndexError>)
        requires
            self.well_formed(),
        ensures
            match index_io_util::section_size(self.nlist, self.d) {
                Err(e) => r == Err::<(u64, usize), IndexError>(e),
                Ok(size) => if 4 * size + 16 * self.nlist > usize::MAX {
                    r == Err::<(u64, usize), IndexError>(IndexError::SectionSizeOverflow)
                } else {
                    r == Ok::<(u64, usize), IndexError>((64, (4 * size + 16 * self.nlist) as usize))
                },
            },
    {
        match id_table::section_len(self.d, self.nlist) {
            Ok(len) => Ok((64, len)),
            Err(e) => Err(e),
        }
    }

    /// Takes in the centroids and the table, unless that was done before. A reader that refuses
    /// them stays as it is.
    pub fn ensure_loaded(&mut self, section: &[u8]) -> (r: Result<(), IndexError>)
        requires
            old(self).well_formed(),
        ensures
            final(self).well_formed(),
            final(self).header() == old(self).header(),
            if old(self).loaded {
                r is Ok && *final(self) == *old(self)
            } else {
                match id_table::parse_section(section@, old(self).d, old(self).nlist) {
                    Ok((centroids, table)) => {
                        &&& r is Ok
                        &&& final(self).loaded
                        &&& final(self).quantizer_centroids@ == centroids
                        &&& final(self).table() == table
                    },
                    Err(e) => r == Err::<(), IndexError>(e) && *final(self) == *old(self),
                }
            },
    {
        if self.loaded {
            return Ok(());
        }
        let (centroids, table): (Vec<u32>, IdTableVecs) = match id_table::read_section(
            section,
            self.d,
            self.nlist,
        ) {
            Ok(v) => v,
            Err(e) => {
                return Err(e);
            },
        };
        let ghost read = table@;
        let IdTableVecs { offsets, counts, id_lens } = table;
        self.quantizer_centroids = centroids;
        self.list_offsets = offsets;
        self.list_counts = counts;
        self.list_id_bytes_lens = id_lens;
        assert(self.table() =~= read);
        self.loaded = true;
        Ok(())
    }

    /// Where a list stands and how long it is; nothing for an empty list.
    pub fn list_place(&self, list_id: usize) -> (r: Result<Option<(u64, usize)>, IndexError>)
        requires
            self.well_formed(),
            self.loaded,
        ensures
            r == list_place(self.table(), self.code_size, self.nlist, list_id),
    {
        if list_id >= self.nlist {
            return Err(IndexError::ListIdRange { list_id, nlist: self.nlist });
        }
        assert(self.table().counts[list_id as int] >= 0);
        assert(self.table().id_lens[list_id as int] >= 0);
        let count: usize = self.list_counts[list_id] as usize;
        if count == 0 {
            return Ok(None);
        }
        let offset: u64 = match index_io_util::checked_list_offset(
            self.list_offsets[list_id],
            list_id,
        ) {
            Ok(v) => v,
            Err(e) => {
                return Err(e);
            },
        };
        let code_bytes: usize = match index_io_util::checked_list_bytes(count, self.code_size) {
            Ok(v) => v,
            Err(e) => {
                return Err(e);
            },
        };
        let factor_bytes: usize = match index_io_util::checked_list_bytes(count, FACTOR_BYTES) {
            Ok(v) => v,
            Err(e) => {
                return Err(e);
            },
        };
        let len: u128 = 12 + self.list_id_bytes_lens[list_id] as u128 + code_bytes as u128
            + factor_bytes as u128;
        if len > usize::MAX as u128 {
            return Err(IndexError::PayloadOverflow { file: FileKind::IvfRq });
        }
        Ok(Some((offset, len as usize)))
    }

    /// The rows of a list, given the bytes that stand at its place.
    pub fn read_inverted_list(&self, list_id: usize, payload: &[u8]) -> (r: Result<
        RQReadList,
        IndexError,
    >)
        requires
            self.well_formed(),
            self.loaded,
        ensures
            match list_place(self.table(), self.code_size, self.nlist, list_id) {
                Err(e) => r == Err::<RQReadList, IndexError>(e),
                Ok(None) => r matches Ok(list) && list.list_id == list_id && list.ids@.len() == 0
                    && list.codes@.len() == 0 && list.factors@.len() == 0,
                Ok(Some((_, len))) => if payload@.len() != len {
                    r == Err::<RQReadList, IndexError>(IndexError::UnexpectedEof)
                } else {
                    let read = parse_payload(
                        payload@,
                        self.list_counts@[list_id as int] as nat,
                        self.list_id_bytes_lens@[list_id as int] as nat,
                        self.code_size as nat,
                    );
                    match r {
                        Ok(list) => list.list_id == list_id && read == Ok::<
                            (Seq<i64>, Seq<u8>, Seq<RQCodeFactors>),
                            IndexError,
                        >((list.ids@, list.codes@, list.factors@)) && list.ids@.len()
                            == self.list_counts@[list_id as int] && list.codes@.len()
                            == list.ids@.len() * self.code_size && list.factors@.len()
                            == list.ids@.len(),
                        Err(e) => read == Err::<
                            (Seq<i64>, Seq<u8>, Seq<RQCodeFactors>),
                            IndexError,
                        >(e),
                    }
                },
            },
    {
        let len: usize = match self.list_place(list_id) {
            Ok(Some((_, len))) => len,
            Ok(None) => {
                return Ok(
                    RQReadList {
                        list_id,
                        ids: Vec::new(),
                        codes: Vec::new(),
                        factors: Vec::new(),
                    },
                );
            },
            Err(e) => {
                return Err(e);
            },
        };
        if payload.len() != len {
            return Err(IndexError::UnexpectedEof);
        }
        assert(self.table().counts[list_id as int] >= 0);
        assert(self.table().id_lens[list_id as int] >= 0);
        let count: usize = self.list_counts[list_id] as usize;
        let id_len: usize = self.list_id_bytes_lens[list_id] as usize;
        let ghost code_len = count * self.code_size;
        proof {
            assert(0 <= code_len) by (nonlinear_arith)
                requires
                    0 <= count,
                    0 <= self.code_size,
                    code_len == count * self.code_size,
            ;
        }
        let base: i64 = little_endian::read_i64_le(payload, 0);
        let encoded: i32 = little_endian::read_i32_le(payload, 8);
        if encoded < 0 || encoded as usize != id_len {
            return Err(IndexError::IdBytesMismatch { file: FileKind::IvfRq });
        }
        let ids_end: usize = 12 + id_len;
        let codes_end: usize = ids_end + count * self.code_size;
        let ids: Vec<i64> = match varint::decode_delta_varint_ids(
            base,
            list_table::part_of(payload, 12, ids_end),
            count,
        ) {
            Ok(ids) => ids,
            Err(e) => {
                return Err(e);
            },
        };
        let codes: Vec<u8> = list_table::copied(list_table::part_of(payload, ids_end, codes_end));
        let tail: &[u8] = list_table::part_of(payload, codes_end, payload.len());
        assert(tail@.len() == 12 * count);
        let factors: Vec<RQCodeFactors> = match bytes_to_factors(tail) {
            Ok(v) => v,
            Err(e) => {
                return Err(e);
            },
        };
        proof {
            varint::decoded_ids_are_sorted(
                payload@.subrange(12, ids_end as int),
                base,
                count as nat,
            );
            assert(tail@ =~= payload@.skip(codes_end as int));
        }
        Ok(RQReadList { list_id, ids, codes, factors })
    }
}

/// Searches lists that were read, for many queries: `lists[i]` holds the ids of list `loaded[i]`,
/// and each query looks at those that it probes. One row is kept for each id.
pub fn search_batch_ivfrq_reader_filter<T: RowIdFilter, F: Fn(usize, usize, usize) -> u32>(
    probes: &Vec<Vec<usize>>,
    loaded: &Vec<usize>,
    lists: &Vec<Vec<i64>>,
    k: usize,
    filter: Option<&T>,
    distance: &F,
) -> (r: (Vec<i64>, Vec<u32>))
    requires
        loaded@.len() == lists@.len(),
        ivf_search::gives_batch_distances(
            *distance,
            probes@.len(),
            ivf_search::row_counts(lists@),
        ),
    ensures
        ({
            let hits = ivf_search::unique_results(
                ivf_search::probe_lists(probes@),
                loaded@,
                lists@,
                k,
                filter,
                ivf_search::batch_distances(*distance),
            );
            r.0@ == ivf_search::all_ids(hits, k) && r.1@ == ivf_search::all_dists(hits, k)
        }),
{
    ivf_search::search_unique_batch(probes, loaded, lists, k, filter, distance)
}

pub open spec fn stored_header(m: RqModel) -> RqHeader {
    RqHeader {
        d: m.d,
        nlist: m.nlist,
        metric: m.metric,
        total_vectors: ivf_lists::total_rows(m.ids) as i64,
        rotation_seed: m.rotation_seed,
        rotation_rounds: m.rotation_rounds,
        code_size: ivfrq::code_bytes(m.d) as usize,
    }
}

#[verifier::rlimit(30)]
proof fn lemma_header(m: RqModel)
    requires
        0 < m.d <= i32::MAX,
        0 < m.nlist <= i32::MAX,
        ivf_lists::total_rows(m.ids) <= i64::MAX,
    ensures
        header_bytes(m).len() == 64,
        parse_header(header_bytes(m)) == Ok::<RqHeader, IndexError>(stored_header(m)),
{
    let s = header_bytes(m);
    let total = ivf_lists::total_rows(m.ids) as i64;
    let code_size = ivfrq::code_bytes(m.d) as i32;
    let p1 = little_endian::u32_bytes(IVF_RQ_MAGIC);
    let p2 = little_endian::u32_bytes(IVF_RQ_VERSION);
    let p3 = little_endian::i32_bytes(m.d as i32);
    let p4 = little_endian::i32_bytes(m.nlist as i32);
    let p5 = little_endian::u32_bytes(m.metric.spec_code());
    let p6 = little_endian::u32_bytes(REQUIRED_FLAGS);
    let p7 = little_endian::i64_bytes(total);
    let p8 = little_endian::u64_bytes(m.rotation_seed);
    let p9 = little_endian::u32_bytes(m.rotation_rounds);
    let pa = little_endian::i32_bytes(code_size);
    let pb = little_endian::u32_bytes(IVF_RQ_NUM_BITS_ONE);
    let pc = little_endian::u32_bytes(IVF_RQ_ROTATION_TYPE_KAC);
    let pd = little_endian::u32_bytes(IVF_RQ_FACTOR_LAYOUT_RABITQ_V1);
    let pe = little_endian::u32_bytes(CURRENT_FORMAT_FLAGS);
    let q5 = p1 + p2 + p3 + p4 + p5;
    let q9 = q5 + p6 + p7 + p8 + p9;
    little_endian::lemma_lens();
    wire::lemma_occurs_whole(s);
    wire::lemma_occurs_split(s, 0, q9 + pa + pb + pc + pd, pe);
    wire::lemma_occurs_split(s, 0, q9 + pa + pb + pc, pd);
    wire::lemma_occurs_split(s, 0, q9 + pa + pb, pc);
    wire::lemma_occurs_split(s, 0, q9 + pa, pb);
    wire::lemma_occurs_split(s, 0, q9, pa);
    wire::lemma_occurs_split(s, 0, q5 + p6 + p7 + p8, p9);
    wire::lemma_occurs_split(s, 0, q5 + p6 + p7, p8);
    wire::lemma_occurs_split(s, 0, q5 + p6, p7);
    wire::lemma_occurs_split(s, 0, q5, p6);
    wire::lemma_occurs_split(s, 0, p1 + p2 + p3 + p4, p5);
    wire::lemma_occurs_split(s, 0, p1 + p2 + p3, p4);
    wire::lemma_occurs_split(s, 0, p1 + p2, p3);
    wire::lemma_occurs_split(s, 0, p1, p2);
    little_endian::read_back_u32(s, 0, IVF_RQ_MAGIC);
    little_endian::read_back_u32(s, 4, IVF_RQ_VERSION);
    little_endian::read_back_i32(s, 8, m.d as i32);
    little_endian::read_back_i32(s, 12, m.nlist as i32);
    little_endian::read_back_u32(s, 16, m.metric.spec_code());
    little_endian::read_back_u32(s, 20, REQUIRED_FLAGS);
    little_endian::read_back_i64(s, 24, total);
    little_endian::read_back_u64(s, 32, m.rotation_seed);
    little_endian::read_back_u32(s, 40, m.rotation_rounds);
    little_endian::read_back_i32(s, 44, code_size);
    little_endian::read_back_u32(s, 48, IVF_RQ_NUM_BITS_ONE);
    little_endian::read_back_u32(s, 52, IVF_RQ_ROTATION_TYPE_KAC);
    little_endian::read_back_u32(s, 56, IVF_RQ_FACTOR_LAYOUT_RABITQ_V1);
    little_endian::read_back_u32(s, 60, 0);
    m.metric.code_round_trip(m.metric.spec_code());
}

proof fn lemma_file_head(m: RqModel)
    requires
        shape_ok(m),
        fits(m, 0),
    ensures
        header_bytes(m).len() == 64,
        file_bytes(m, 0).take(64) == header_bytes(m),
        file_bytes(m, 0).skip(64) == little_endian::u32_seq_bytes(m.centroids) + stored_table(
            m,
            0,
        ).bytes() + wire::concat(payloads(m)),
        parse_header(file_bytes(m, 0).take(64)) == Ok::<RqHeader, IndexError>(stored_header(m)),
{
    let s = file_bytes(m, 0);
    lemma_header(m);
    assert(s.take(64) =~= header_bytes(m));
    assert(s.skip(64) =~= little_endian::u32_seq_bytes(m.centroids) + stored_table(m, 0).bytes()
        + wire::concat(payloads(m)));
}

proof fn lemma_section(m: RqModel)
    requires
        shape_ok(m),
        fits(m, 0),
    ensures
        id_table::parse_section(file_bytes(m, 0).skip(64), m.d, m.nlist) == Ok::<
            (Seq<u32>, IdTable),
            IndexError,
        >((m.centroids, stored_table(m, 0))),
{
    let t = stored_table(m, 0);
    assert forall|i: int| 0 <= i < m.nlist implies #[trigger] t.counts[i] >= 0 by {
        assert(list_fits(m, i));
    }
    assert forall|i: int| 0 <= i < m.nlist implies #[trigger] t.id_lens[i] >= 0 by {
        assert(list_fits(m, i));
    }
    lemma_file_head(m);
    id_table::section_round_trip(m.centroids, t, m.d, m.nlist, wire::concat(payloads(m)));
}

proof fn lemma_payload(m: RqModel, i: int)
    requires
        shape_ok(m),
        0 <= i < m.nlist,
        list_fits(m, i),
        m.ids[i].len() > 0,
    ensures
        payload(m, i).len() == 12 + id_section(m, i).len() + m.ids[i].len() * ivfrq::code_bytes(m.d)
            + m.ids[i].len() * 12,
        parse_payload(
            payload(m, i),
            m.ids[i].len(),
            id_section(m, i).len(),
            ivfrq::code_bytes(m.d),
        ) == Ok::<(Seq<i64>, Seq<u8>, Seq<RQCodeFactors>), IndexError>(
            (ivf_lists::sorted_ids(m.ids[i]), sorted_codes(m, i), sorted_factors(m, i)),
        ),
{
    let s = payload(m, i);
    let ids = ivf_lists::sorted_ids(m.ids[i]);
    let section = id_section(m, i);
    let codes = sorted_codes(m, i);
    let factors = sorted_factors(m, i);
    let tail = wire::concat(factor_parts(factors));
    let a = little_endian::i64_bytes(ids[0]);
    let b = little_endian::i32_bytes(section.len() as i32);
    assert(list_ok(m, i));
    ivf_lists::lemma_sorted_ids(m.ids[i]);
    ivf_lists::lemma_gathered_len(
        m.codes[i],
        ivfrq::code_bytes(m.d),
        ivf_lists::id_order(m.ids[i]),
        m.ids[i].len(),
    );
    factors_round_trip(factors);
    little_endian::lemma_lens();
    wire::lemma_occurs_whole(s);
    wire::lemma_occurs_split(s, 0, a + b + section + codes, tail);
    wire::lemma_occurs_split(s, 0, a + b + section, codes);
    wire::lemma_occurs_split(s, 0, a + b, section);
    wire::lemma_occurs_split(s, 0, a, b);
    little_endian::read_back_i64(s, 0, ids[0]);
    little_endian::read_back_i32(s, 8, section.len() as i32);
    let ids_end = 12int + section.len();
    let codes_end = ids_end + codes.len();
    assert(s.subrange(12, ids_end) =~= section);
    assert(s.subrange(ids_end, codes_end) =~= codes);
    assert(s.skip(codes_end) =~= tail);
    varint::ids_round_trip(ids[0], ids, Seq::empty());
}

/// An index that was written to a file of its own reads back: its header, its centroids, and of
/// each list the place and, from the bytes at that place, the ids, codes and factors in the order
/// of the ids.
pub open spec fn reads_back(m: RqModel, i: usize) -> bool {
    let s = file_bytes(m, 0);
    let t = stored_table(m, 0);
    let code_size = ivfrq::code_bytes(m.d) as usize;
    &&& parse_header(s.take(64)) == Ok::<RqHeader, IndexError>(stored_header(m))
    &&& id_table::parse_section(s.skip(64), m.d, m.nlist) == Ok::<
        (Seq<u32>, IdTable),
        IndexError,
    >((m.centroids, t))
    &&& if m.ids[i as int].len() == 0 {
        list_place(t, code_size, m.nlist, i) == Ok::<Option<(u64, usize)>, IndexError>(None)
    } else {
        &&& list_place(t, code_size, m.nlist, i) == Ok::<
            Option<(u64, usize)>,
            IndexError,
        >(Some((t.offsets[i as int] as u64, payload(m, i as int).len() as usize)))
        &&& wire::occurs(s, t.offsets[i as int] as int, payload(m, i as int))
        &&& parse_payload(
            payload(m, i as int),
            t.counts[i as int] as nat,
            t.id_lens[i as int] as nat,
            code_size as nat,
        ) == Ok::<(Seq<i64>, Seq<u8>, Seq<RQCodeFactors>), IndexError>(
            (
                ivf_lists::sorted_ids(m.ids[i as int]),
                sorted_codes(m, i as int),
                sorted_factors(m, i as int),
            ),
        )
    }
}

/// Every index of a good shape that fits into a file reads back from one of its own.
pub proof fn rq_file_round_trip(m: RqModel, i: usize)
    requires
        shape_ok(m),
        fits(m, 0),
        i < m.nlist,
        payload(m, i as int).len() <= usize::MAX,
    ensures
        reads_back(m, i),
{
    lemma_file_head(m);
    lemma_section(m);
    let s = file_bytes(m, 0);
    let head = header_bytes(m);
    let centroids = little_endian::u32_seq_bytes(m.centroids);
    let t = stored_table(m, 0);
    let lists = wire::concat(payloads(m));
    assert(list_fits(m, i as int));
    let offset = list_table::list_offset(payloads(m), data_start(m, 0), i as int);
    assert(offset <= i64::MAX);
    if m.ids[i as int].len() > 0 {
        little_endian::lemma_u32_seq_bytes_len(m.centroids);
        id_table::lemma_table_len(t, 0);
        lemma_payload(m, i as int);
        wire::lemma_occurs_whole(s);
        wire::lemma_occurs_split(s, 0, head + centroids + t.bytes(), lists);
        wire::lemma_concat_part(s, data_start(m, 0), payloads(m), i as int);
    }
}

} // verus!

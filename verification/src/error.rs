use crate::numerals;
use vstd::prelude::*;
use vstd::string::{StrSliceExecFns, StringExecFns};

verus! {

/// The broad class of an error, as a caller would branch on it.
#[derive(Debug, Clone, Copy, PartialEq, Eq, Structural)]
pub enum ErrorKind {
    InvalidInput,
    InvalidData,
    UnexpectedEof,
    Unsupported,
}

/// A number of an index file that has a limit.
#[derive(Debug, Clone, Copy, PartialEq, Eq, Structural)]
pub enum Field {
    Dimension,
    Nlist,
    HnswM,
    HnswEfConstruction,
    HnswMaxLevel,
    TotalVectors,
    ListCount,
    IdBytes,
    GraphBytes,
    PayloadBytes,
    VectorBytes,
    CodeSize,
    PqM,
    VectorCount,
}

impl Field {
    /// What the number is called.
    pub open spec fn name(self) -> Seq<char> {
        match self {
            Field::Dimension => "dimension"@,
            Field::Nlist => "nlist"@,
            Field::HnswM => "hnsw m"@,
            Field::HnswEfConstruction => "hnsw ef_construction"@,
            Field::HnswMaxLevel => "hnsw max_level"@,
            Field::TotalVectors => "total vector count"@,
            Field::ListCount => "list count"@,
            Field::IdBytes => "delta ID section"@,
            Field::GraphBytes => "graph bytes"@,
            Field::PayloadBytes => "list payload bytes"@,
            Field::VectorBytes => "vector bytes"@,
            Field::CodeSize => "code size"@,
            Field::PqM => "m"@,
            Field::VectorCount => "vector count"@,
        }
    }

    /// What the number is called as a part of a header.
    pub open spec fn header_name(self) -> Seq<char> {
        match self {
            Field::Dimension => "d"@,
            Field::CodeSize => "code_size"@,
            _ => self.name(),
        }
    }

    pub fn text(self) -> (r: &'static str)
        ensures
            r@ == self.name(),
    {
        match self {
            Field::Dimension => "dimension",
            Field::Nlist => "nlist",
            Field::HnswM => "hnsw m",
            Field::HnswEfConstruction => "hnsw ef_construction",
            Field::HnswMaxLevel => "hnsw max_level",
            Field::TotalVectors => "total vector count",
            Field::ListCount => "list count",
            Field::IdBytes => "delta ID section",
            Field::GraphBytes => "graph bytes",
            Field::PayloadBytes => "list payload bytes",
            Field::VectorBytes => "vector bytes",
            Field::CodeSize => "code size",
            Field::PqM => "m",
            Field::VectorCount => "vector count",
        }
    }

    pub fn header_text(self) -> (r: &'static str)
        ensures
            r@ == self.header_name(),
    {
        match self {
            Field::Dimension => "d",
            Field::CodeSize => "code_size",
            _ => self.text(),
        }
    }
}

/// The kind of a file.
#[derive(Debug, Clone, Copy, PartialEq, Eq, Structural)]
pub enum FileKind {
    IvfFlat,
    IvfHnswFlat,
    IvfHnswSq,
    IvfRq,
}

impl FileKind {
    /// What the format is called.
    pub open spec fn name(self) -> Seq<char> {
        match self {
            FileKind::IvfFlat => "IVFFLAT"@,
            FileKind::IvfHnswFlat => "IVF_HNSW_FLAT"@,
            FileKind::IvfHnswSq => "IVF_HNSW_SQ"@,
            FileKind::IvfRq => "IVF-RQ"@,
        }
    }

    pub fn text(self) -> (r: &'static str)
        ensures
            r@ == self.name(),
    {
        match self {
            FileKind::IvfFlat => "IVFFLAT",
            FileKind::IvfHnswFlat => "IVF_HNSW_FLAT",
            FileKind::IvfHnswSq => "IVF_HNSW_SQ",
            FileKind::IvfRq => "IVF-RQ",
        }
    }

    /// What the index in such a file is called.
    pub open spec fn title(self) -> Seq<char> {
        match self {
            FileKind::IvfFlat => "IVF-FLAT"@,
            FileKind::IvfHnswFlat => "IVF-HNSW-FLAT"@,
            FileKind::IvfHnswSq => "IVF-HNSW-SQ"@,
            FileKind::IvfRq => "IVF-RQ"@,
        }
    }

    pub fn title_text(self) -> (r: &'static str)
        ensures
            r@ == self.title(),
    {
        match self {
            FileKind::IvfFlat => "IVF-FLAT",
            FileKind::IvfHnswFlat => "IVF-HNSW-FLAT",
            FileKind::IvfHnswSq => "IVF-HNSW-SQ",
            FileKind::IvfRq => "IVF-RQ",
        }
    }
}

/// Everything that a function of this library can refuse.
#[derive(Debug, Clone, Copy, PartialEq, Eq, Structural)]
pub enum IndexError {
    /// A variable-length integer runs past the end of its section.
    VarintTruncated,
    /// A variable-length integer does not fit into 64 bits.
    VarintTooLong,
    /// Decoded row ids go down from one row to the next.
    IdsNotSorted,
    /// The id section holds bytes behind its last id.
    IdsTrailingBytes,
    /// The number of nodes times the dimension overflows.
    GraphSizeOverflow,
    /// The vectors of a graph are not its nodes times the dimension.
    GraphVectorLength { len: usize, expected: usize },
    /// There are not as many levels, or lists of neighbours, as nodes.
    GraphLevelCount,
    GraphEntryPoint { entry_point: usize, count: usize },
    GraphMaxLevel { stated: usize, observed: usize },
    /// The entry point of a graph is below its greatest level.
    GraphEntryLevel,
    GraphLevelAdjacency { node: usize },
    GraphEdge { node: usize, neighbor: usize, level: usize },
    /// A number that is stored in 32 bits does not fit.
    ValueExceedsU32 { value: usize },
    /// The graph section ends inside its header.
    GraphTruncated,
    GraphMagic { magic: u32 },
    GraphVersion { version: u32 },
    GraphUnknownFlags { flags: u32 },
    /// The flags do not ask for the one encoding of neighbour lists that there is.
    GraphMissingFlags,
    GraphNumberTooLarge { number: u64 },
    GraphCount { stored: usize, count: usize },
    GraphNodeLevel { node: usize, level: usize, max_level: usize },
    GraphDegree { node: usize, degree: usize, level: usize, max_degree: usize },
    GraphNeighborTooLarge { number: u64 },
    /// The graph section holds bytes behind its last list.
    GraphTrailingBytes,
    /// A search asks for no queries.
    NqZero,
    /// The number of queries times the dimension overflows.
    QuerySizeOverflow,
    QueriesLength { len: usize, expected: usize },
    QueryLength { len: usize, expected: usize },
    /// A search asks for no rows.
    KZero,
    /// A search looks into no lists.
    NprobeZero,
    /// Reserved bytes are not zero.
    ReservedBytes,
    HeaderNotPositive { field: Field, found: i32 },
    LengthExceedsI32 { field: Field, value: usize },
    LengthExceedsI64 { field: Field, value: usize },
    OffsetExceedsI64 { at: u64 },
    SectionSizeOverflow,
    SectionTooLarge { size: usize },
    NegativeListOffset { offset: i64, list_id: usize },
    ListBytesOverflow,
    /// A section of 32-bit values is not a multiple of four bytes long.
    Unaligned,
    /// A value is infinite or no number.
    NotFinite { place: usize },
    /// The rows of all lists together are too many.
    TooManyVectors,
    /// An index of vectors without dimensions.
    DimensionZero,
    /// An index without lists.
    NlistZero,
    /// There are not as many stored lists as the index has.
    ListStorage { file: FileKind },
    CentroidLength { file: FileKind, len: usize, expected: usize },
    /// The number of rows of a list times the dimension overflows.
    VectorLengthOverflow { file: FileKind },
    ListVectorLength { list_id: usize, len: usize, expected: usize },
    /// The bytes end before what they should hold.
    UnexpectedEof,
    FileMagic { file: FileKind, magic: u32 },
    FileVersion { file: FileKind, version: u32 },
    UnknownMetric { code: u32 },
    NegativeListCount { found: i32, list_id: usize },
    NegativeIdBytes { found: i32, list_id: usize },
    ListIdRange { list_id: usize, nlist: usize },
    /// The length of a stored list overflows.
    PayloadOverflow { file: FileKind },
    /// A list does not agree with the table on the length of its id section.
    IdBytesMismatch { file: FileKind },
    /// Ids are stored in a form that is not known.
    DeltaIdsOnly,
    /// The bytes are not the stored form of a row filter.
    RoaringFilter,
    /// There are fewer vectors than nodes.
    VectorDataTooShort { len: usize, expected: usize },
    NegativeGraphBytes { found: i32, list_id: usize },
    NegativePayloadBytes { offset: i64, list_id: usize },
    /// A stored list that is not empty has no graph.
    MissingGraph { list_id: usize },
    /// A list that is not empty has no graph to be stored.
    GraphNotBuilt { list_id: usize },
    /// The graph of a list is not one of its vectors.
    GraphMismatch { file: FileKind, list_id: usize },
    /// An empty list has a graph.
    GraphOfEmptyList { list_id: usize },
    /// The flags of a file ask for what is not known.
    FileFlags { file: FileKind, flags: u32 },
    /// The flags of a file do not ask for what every file has.
    FileFlagsMissing { file: FileKind },
    /// The quantizer has another dimension than the index.
    SqDimension,
    SqListDimension { list_id: usize },
    /// There are not as many lists of bounds as lists.
    SqListCount,
    SqBoundsLength { d: usize, mins: usize, maxs: usize },
    SqBoundsNotFinite { place: usize },
    /// The bounds in the header are not those of the quantizer.
    SqSummary,
    ListCodeLength { file: FileKind, list_id: usize, len: usize, expected: usize },
    /// The table has no length for a list that is not empty.
    MissingPayloadLength { list_id: usize },
    PayloadTooShort { list_id: usize, len: usize, expected: usize },
    PayloadLength { list_id: usize, len: usize, expected: usize },
    /// The codes of a list run past its end.
    CodesTruncated { list_id: usize },
    /// Two lists of a file share bytes.
    PayloadsOverlap,
    /// The end of a list lies beyond what can be addressed.
    PayloadEndOverflow,
    /// Lists that would be read together are too long together.
    ReadRangeTooLarge,
    /// A file states a negative number of rows.
    NegativeTotal { offset: i64 },
    CodeSize { len: usize, expected: usize },
    RqNumBits { code: u32 },
    RqRotationType { code: u32 },
    RqFactorLayout { code: u32 },
    RqFormatFlags { flags: u32 },
    /// The file has codes of several bits or sections that are not read.
    RqOptionalSections { code: u32, flags: u32 },
    QueryBits { value: usize },
    ListFactorCount { list_id: usize, len: usize, expected: usize },
    /// A section of factors is not a multiple of twelve bytes long.
    FactorsUnaligned,
    /// There are no vectors to plan for.
    VectorCountZero,
    /// There is no result to plan for.
    TopKZero,
    /// The number of vectors to train with overflows.
    TrainingCountOverflow,
    /// The number of rows to look at overflows.
    CandidateCountOverflow,
    /// The number of bytes of a row overflows.
    RowBytesOverflow,
    RowBudget { max_bytes: usize },
    /// There is no memory to build with.
    MemoryBudgetZero,
    FieldZero { field: Field },
    NotDivisible { dimension: usize, m: usize },
    /// The first bytes of a file are those of no index.
    UnknownIndexMagic { magic: u32 },
    /// The number of vectors times the dimension overflows.
    DataSizeOverflow,
    DataLength { len: usize, expected: usize },
    IdCount { len: usize, expected: usize },
    /// There is no storage for this kind of index.
    NoSuchStorage,
    /// A cut of a band is infinite or no number.
    RangeCutNotFinite,
    /// A cut of a band of squared distances is negative.
    RangeCutNegative,
    /// The lower end of a band is above its upper end.
    RangeInverted,
    /// An endpoint is infinite or no number.
    EndpointNotFinite,
    /// A lower endpoint compares as an upper one.
    LowerOperator,
    /// An upper endpoint compares as a lower one.
    UpperOperator,
    /// No stored distance reaches the endpoint.
    EndpointNoCut,
    /// A query cannot be normalized.
    NonFiniteQuery,
    /// A value of a centroid is infinite or no number.
    NonFiniteCentroid,
    NonFiniteCentroidDistance { list: usize },
    /// A vector or its norm is infinite or no number.
    NonFiniteCosine,
    NonFiniteDistance { id: i64 },
    /// A quantizer without dimensions, chunks, or a known number of bits.
    PqShape,
    /// The chunks do not cover the dimensions.
    PqChunkBounds,
    /// A chunk is empty.
    PqChunkOrder,
}

impl IndexError {
    /// The class of the error.
    pub open spec fn spec_kind(self) -> ErrorKind {
        match self {
            IndexError::GraphSizeOverflow => ErrorKind::InvalidInput,
            IndexError::ValueExceedsU32 { .. } => ErrorKind::InvalidInput,
            IndexError::NqZero => ErrorKind::InvalidInput,
            IndexError::QuerySizeOverflow => ErrorKind::InvalidInput,
            IndexError::QueriesLength { .. } => ErrorKind::InvalidInput,
            IndexError::QueryLength { .. } => ErrorKind::InvalidInput,
            IndexError::KZero => ErrorKind::InvalidInput,
            IndexError::NprobeZero => ErrorKind::InvalidInput,
            IndexError::LengthExceedsI32 { .. } => ErrorKind::InvalidInput,
            IndexError::LengthExceedsI64 { .. } => ErrorKind::InvalidInput,
            IndexError::OffsetExceedsI64 { .. } => ErrorKind::InvalidInput,
            IndexError::TooManyVectors => ErrorKind::InvalidInput,
            IndexError::DimensionZero => ErrorKind::InvalidInput,
            IndexError::NlistZero => ErrorKind::InvalidInput,
            IndexError::ListStorage { .. } => ErrorKind::InvalidInput,
            IndexError::CentroidLength { .. } => ErrorKind::InvalidInput,
            IndexError::VectorLengthOverflow { .. } => ErrorKind::InvalidInput,
            IndexError::ListVectorLength { .. } => ErrorKind::InvalidInput,
            IndexError::UnexpectedEof => ErrorKind::UnexpectedEof,
            IndexError::ListIdRange { .. } => ErrorKind::InvalidInput,
            IndexError::RoaringFilter => ErrorKind::InvalidInput,
            IndexError::VectorDataTooShort { .. } => ErrorKind::InvalidInput,
            IndexError::GraphNotBuilt { .. } => ErrorKind::InvalidInput,
            IndexError::GraphMismatch { .. } => ErrorKind::InvalidInput,
            IndexError::GraphOfEmptyList { .. } => ErrorKind::InvalidInput,
            IndexError::SqDimension => ErrorKind::InvalidInput,
            IndexError::SqListDimension { .. } => ErrorKind::InvalidInput,
            IndexError::SqListCount => ErrorKind::InvalidInput,
            IndexError::SqBoundsLength { .. } => ErrorKind::InvalidInput,
            IndexError::SqBoundsNotFinite { .. } => ErrorKind::InvalidInput,
            IndexError::ListCodeLength { .. } => ErrorKind::InvalidInput,
            IndexError::CodesTruncated { .. } => ErrorKind::UnexpectedEof,
            IndexError::QueryBits { .. } => ErrorKind::InvalidInput,
            IndexError::ListFactorCount { .. } => ErrorKind::InvalidInput,
            IndexError::VectorCountZero => ErrorKind::InvalidInput,
            IndexError::TopKZero => ErrorKind::InvalidInput,
            IndexError::TrainingCountOverflow => ErrorKind::InvalidInput,
            IndexError::CandidateCountOverflow => ErrorKind::InvalidInput,
            IndexError::RowBytesOverflow => ErrorKind::InvalidInput,
            IndexError::RowBudget { .. } => ErrorKind::InvalidInput,
            IndexError::MemoryBudgetZero => ErrorKind::InvalidInput,
            IndexError::FieldZero { .. } => ErrorKind::InvalidInput,
            IndexError::NotDivisible { .. } => ErrorKind::InvalidInput,
            IndexError::DataSizeOverflow => ErrorKind::InvalidInput,
            IndexError::DataLength { .. } => ErrorKind::InvalidInput,
            IndexError::IdCount { .. } => ErrorKind::InvalidInput,
            IndexError::NoSuchStorage => ErrorKind::Unsupported,
            IndexError::RangeCutNotFinite => ErrorKind::InvalidInput,
            IndexError::RangeCutNegative => ErrorKind::InvalidInput,
            IndexError::RangeInverted => ErrorKind::InvalidInput,
            IndexError::EndpointNotFinite => ErrorKind::InvalidInput,
            IndexError::LowerOperator => ErrorKind::InvalidInput,
            IndexError::UpperOperator => ErrorKind::InvalidInput,
            IndexError::EndpointNoCut => ErrorKind::Unsupported,
            IndexError::PqShape => ErrorKind::InvalidInput,
            IndexError::PqChunkBounds => ErrorKind::InvalidInput,
            IndexError::PqChunkOrder => ErrorKind::InvalidInput,
            _ => ErrorKind::InvalidData,
        }
    }

    /// The error in words.
    pub open spec fn words(self) -> Seq<char> {
        match self {
            IndexError::VarintTruncated => "truncated varint"@,
            IndexError::VarintTooLong => "varint exceeds 64 bits"@,
            IndexError::IdsNotSorted => "decoded ID sequence is not monotonically non-decreasing"@,
            IndexError::IdsTrailingBytes => "trailing bytes in delta-varint ID section"@,
            IndexError::GraphSizeOverflow => "n * dimension overflows usize"@,
            IndexError::GraphVectorLength { len, expected } => "graph vector length "@
                + numerals::decimal(len as nat) + " does not match n*d "@
                + numerals::decimal(expected as nat),
            IndexError::GraphLevelCount => "graph level metadata does not match vector count"@,
            IndexError::GraphEntryPoint { entry_point, count } => "graph entry point "@
                + numerals::decimal(entry_point as nat) + " out of range "@
                + numerals::decimal(count as nat),
            IndexError::GraphMaxLevel { stated, observed } => "graph max level "@
                + numerals::decimal(stated as nat) + " does not match observed "@
                + numerals::decimal(observed as nat),
            IndexError::GraphEntryLevel => "graph entry point does not reach max observed level"@,
            IndexError::GraphLevelAdjacency { node } => "graph node "@
                + numerals::decimal(node as nat) + " has invalid level adjacency"@,
            IndexError::GraphEdge { node, neighbor, level } => "graph edge "@
                + numerals::decimal(node as nat) + " -> "@ + numerals::decimal(neighbor as nat)
                + " at level "@ + numerals::decimal(level as nat) + " is invalid"@,
            IndexError::ValueExceedsU32 { value } => "value "@ + numerals::decimal(value as nat)
                + " exceeds u32 limit"@,
            IndexError::GraphTruncated => "truncated HNSW graph section"@,
            IndexError::GraphMagic { magic } => "Invalid HNSW graph magic: "@
                + numerals::hex(magic),
            IndexError::GraphVersion { version } => "Unsupported HNSW graph version: "@
                + numerals::decimal(version as nat),
            IndexError::GraphUnknownFlags { flags } => "Unsupported HNSW graph flags: "@
                + numerals::hex(flags),
            IndexError::GraphMissingFlags => "HNSW graph v1 requires delta-varint adjacency encoding"@,
            IndexError::GraphNumberTooLarge { number } => "HNSW graph varint value "@
                + numerals::decimal(number as nat) + " exceeds u32 limit"@,
            IndexError::GraphCount { stored, count } => "graph count "@
                + numerals::decimal(stored as nat) + " does not match list count "@
                + numerals::decimal(count as nat),
            IndexError::GraphNodeLevel { node, level, max_level } => "graph node "@
                + numerals::decimal(node as nat) + " level "@ + numerals::decimal(level as nat)
                + " exceeds max_level "@ + numerals::decimal(numerals::before(max_level)),
            IndexError::GraphDegree { node, degree, level, max_degree } => "graph node "@
                + numerals::decimal(node as nat) + " degree "@ + numerals::decimal(degree as nat)
                + " at level "@ + numerals::decimal(level as nat) + " exceeds max degree "@
                + numerals::decimal(max_degree as nat),
            IndexError::GraphNeighborTooLarge { number } => "graph neighbor id "@
                + numerals::decimal(number as nat) + " is out of range"@,
            IndexError::GraphTrailingBytes => "trailing bytes in HNSW graph section"@,
            IndexError::NqZero => "nq must be greater than 0"@,
            IndexError::QuerySizeOverflow => "nq * dimension overflows usize"@,
            IndexError::QueriesLength { len, expected } => "queries length "@
                + numerals::decimal(len as nat) + " does not match nq * dimension "@
                + numerals::decimal(expected as nat),
            IndexError::QueryLength { len, expected } => "query length "@
                + numerals::decimal(len as nat) + " does not match index dimension "@
                + numerals::decimal(expected as nat),
            IndexError::KZero => "k must be greater than 0"@,
            IndexError::NprobeZero => "nprobe must be greater than 0"@,
            IndexError::ReservedBytes => "reserved bytes must be zero"@,
            IndexError::HeaderNotPositive { field, found } => "invalid header field "@
                + field.header_name() + ": "@ + numerals::signed(found as int)
                + " (must be positive)"@,
            IndexError::LengthExceedsI32 { field, value } => field.name()
                + " exceeds i32 length limit: "@ + numerals::decimal(value as nat),
            IndexError::LengthExceedsI64 { field, value } => field.name()
                + " exceeds i64 length limit: "@ + numerals::decimal(value as nat),
            IndexError::OffsetExceedsI64 { at } => "list offset exceeds i64 offset limit: "@
                + numerals::decimal(at as nat),
            IndexError::SectionSizeOverflow => "section size overflow"@,
            IndexError::SectionTooLarge { size } => "section size "@
                + numerals::decimal(size as nat) + " exceeds maximum 1073741824"@,
            IndexError::NegativeListOffset { offset, list_id } => "negative list offset "@
                + numerals::signed(offset as int) + " at list "@
                + numerals::decimal(list_id as nat),
            IndexError::ListBytesOverflow => "list byte size overflow"@,
            IndexError::Unaligned => "f32 byte section is not 4-byte aligned"@,
            IndexError::NotFinite { place } => "section contains non-finite value at offset "@
                + numerals::decimal(place as nat),
            IndexError::TooManyVectors => "total vector count exceeds i64 length limit"@,
            IndexError::DimensionZero => "dimension must be greater than 0"@,
            IndexError::NlistZero => "nlist must be greater than 0"@,
            IndexError::ListStorage { file: FileKind::IvfHnswSq } => "inverted list count does not match nlist"@,
            IndexError::ListStorage { file } => file.title()
                + " list storage does not match nlist"@,
            IndexError::CentroidLength { file: FileKind::IvfHnswSq, len, expected } => "quantizer centroid length "@
                + numerals::decimal(len as nat) + " does not match nlist*d "@
                + numerals::decimal(expected as nat),
            IndexError::CentroidLength { len, expected, .. } => "centroid length "@
                + numerals::decimal(len as nat) + " does not match nlist*d "@
                + numerals::decimal(expected as nat),
            IndexError::VectorLengthOverflow { file } => file.title() + " vector length overflow"@,
            IndexError::ListVectorLength { list_id, len, expected } => "list "@
                + numerals::decimal(list_id as nat) + " vector length "@
                + numerals::decimal(len as nat) + " does not match ids*d "@
                + numerals::decimal(expected as nat),
            IndexError::UnexpectedEof => "failed to fill whole buffer"@,
            IndexError::FileMagic { file, magic } => "Invalid "@ + file.name() + " magic: "@
                + numerals::hex(magic),
            IndexError::FileVersion { file, version } => "Unsupported "@ + file.name()
                + " version: "@ + numerals::decimal(version as nat),
            IndexError::UnknownMetric { code } => "Unknown metric type: "@
                + numerals::decimal(code as nat),
            IndexError::NegativeListCount { found, list_id } => "negative list count "@
                + numerals::signed(found as int) + " at list "@
                + numerals::decimal(list_id as nat),
            IndexError::NegativeIdBytes { found, list_id } => "negative id_bytes_len "@
                + numerals::signed(found as int) + " at list "@
                + numerals::decimal(list_id as nat),
            IndexError::ListIdRange { list_id, nlist } => "list_id "@
                + numerals::decimal(list_id as nat) + " out of range (nlist="@
                + numerals::decimal(nlist as nat) + ")"@,
            IndexError::PayloadOverflow { file: FileKind::IvfHnswSq } => "IVF-HNSW-SQ list payload length overflow"@,
            IndexError::PayloadOverflow { file } => file.title() + " list payload overflow"@,
            IndexError::IdBytesMismatch { file } => file.title() + " id_bytes_len mismatch"@,
            IndexError::DeltaIdsOnly => "IVF-FLAT reader only supports delta IDs"@,
            IndexError::RoaringFilter => "invalid RoaringTreemap filter"@,
            IndexError::VectorDataTooShort { len, expected } => "vector data length "@
                + numerals::decimal(len as nat) + " is shorter than n*d "@
                + numerals::decimal(expected as nat),
            IndexError::NegativeGraphBytes { found, list_id } => "negative graph_bytes_len "@
                + numerals::signed(found as int) + " at list "@
                + numerals::decimal(list_id as nat),
            IndexError::NegativePayloadBytes { offset, list_id } => "negative payload_bytes_len "@
                + numerals::signed(offset as int) + " at list "@
                + numerals::decimal(list_id as nat),
            IndexError::MissingGraph { list_id } => "list "@ + numerals::decimal(list_id as nat)
                + " is missing HNSW graph"@,
            IndexError::GraphNotBuilt { list_id } => "list "@ + numerals::decimal(list_id as nat)
                + " is missing HNSW graph; call build_graphs first"@,
            IndexError::GraphMismatch { file: FileKind::IvfHnswSq, list_id } => "list "@
                + numerals::decimal(list_id as nat) + " graph does not match SQ code storage"@,
            IndexError::GraphMismatch { list_id, .. } => "list "@
                + numerals::decimal(list_id as nat) + " graph does not match vector storage"@,
            IndexError::GraphOfEmptyList { list_id } => "list "@
                + numerals::decimal(list_id as nat) + " has graph for an empty list"@,
            IndexError::FileFlags { file, flags } => "Unsupported "@ + file.name() + " flags: "@
                + numerals::hex(flags),
            IndexError::FileFlagsMissing { file: FileKind::IvfHnswSq } => "IVF_HNSW_SQ v1 requires delta-varint IDs and graph v1"@,
            IndexError::FileFlagsMissing { file } => file.name() + " v1 requires delta IDs"@,
            IndexError::SqDimension => "SQ dimension does not match index dimension"@,
            IndexError::SqListDimension { list_id } => "SQ dimension for list "@
                + numerals::decimal(list_id as nat) + " does not match index dimension"@,
            IndexError::SqListCount => "SQ list bounds count does not match nlist"@,
            IndexError::SqBoundsLength { d, mins, maxs } => "SQ bounds length mismatch: d="@
                + numerals::decimal(d as nat) + ", mins="@ + numerals::decimal(mins as nat)
                + ", maxs="@ + numerals::decimal(maxs as nat),
            IndexError::SqBoundsNotFinite { place } => "SQ bounds at dimension "@
                + numerals::decimal(place as nat) + " must be finite"@,
            IndexError::SqSummary => "SQ bounds summary does not match global SQ bounds"@,
            IndexError::ListCodeLength { file: FileKind::IvfHnswSq, list_id, len, expected } => "list "@
                + numerals::decimal(list_id as nat) + " SQ code length "@
                + numerals::decimal(len as nat) + " does not match count*d "@
                + numerals::decimal(expected as nat),
            IndexError::ListCodeLength { list_id, len, expected, .. } => "list "@
                + numerals::decimal(list_id as nat) + " code length "@
                + numerals::decimal(len as nat) + " does not match ids*code_size "@
                + numerals::decimal(expected as nat),
            IndexError::MissingPayloadLength { list_id } => "list "@
                + numerals::decimal(list_id as nat) + " is missing payload length"@,
            IndexError::PayloadTooShort { list_id, len, expected } => "list "@
                + numerals::decimal(list_id as nat) + " payload length "@
                + numerals::decimal(len as nat) + " is shorter than expected "@
                + numerals::decimal(expected as nat),
            IndexError::PayloadLength { list_id, len, expected } => "list "@
                + numerals::decimal(list_id as nat) + " payload length "@
                + numerals::decimal(len as nat) + " does not match expected "@
                + numerals::decimal(expected as nat),
            IndexError::CodesTruncated { list_id } => "list "@ + numerals::decimal(list_id as nat)
                + " has truncated SQ codes payload"@,
            IndexError::PayloadsOverlap => "list payload offsets overlap"@,
            IndexError::PayloadEndOverflow => "list payload offset overflows u64"@,
            IndexError::ReadRangeTooLarge => "coalesced read range exceeds usize"@,
            IndexError::NegativeTotal { offset } => "negative total vector count: "@
                + numerals::signed(offset as int),
            IndexError::CodeSize { len, expected } => "IVF-RQ code_size "@
                + numerals::decimal(len as nat) + " does not match dimension-derived size "@
                + numerals::decimal(expected as nat),
            IndexError::RqNumBits { code } => "unsupported IVF-RQ num_bits "@
                + numerals::decimal(code as nat) + "; expected 1, 2, 4, or 8"@,
            IndexError::RqRotationType { code } => "unsupported IVF-RQ rotation_type "@
                + numerals::decimal(code as nat) + "; expected 1"@,
            IndexError::RqFactorLayout { code } => "unsupported IVF-RQ factor_layout "@
                + numerals::decimal(code as nat) + "; expected 1"@,
            IndexError::RqFormatFlags { flags } => "unsupported IVF-RQ format_flags: "@
                + numerals::hex(flags),
            IndexError::RqOptionalSections { code, flags } => "IVF-RQ reader currently supports only num_bits=1 without optional sections; got num_bits="@
                + numerals::decimal(code as nat) + ", format_flags="@ + numerals::hex(flags),
            IndexError::QueryBits { value } => "invalid IVF-RQ query_bits "@
                + numerals::decimal(value as nat) + "; expected 0, 4, or 8"@,
            IndexError::ListFactorCount { list_id, len, expected } => "list "@
                + numerals::decimal(list_id as nat) + " factor count "@
                + numerals::decimal(len as nat) + " does not match ids "@
                + numerals::decimal(expected as nat),
            IndexError::FactorsUnaligned => "IVF-RQ factor section is not 12-byte aligned"@,
            IndexError::VectorCountZero => "vector count must be greater than 0"@,
            IndexError::TopKZero => "top_k must be greater than 0"@,
            IndexError::TrainingCountOverflow => "automatic training vector count overflows usize"@,
            IndexError::CandidateCountOverflow => "automatic nprobe candidate count overflows usize"@,
            IndexError::RowBytesOverflow => "row byte estimate overflows usize"@,
            IndexError::RowBudget { max_bytes } => "max bytes per vector "@
                + numerals::decimal(max_bytes as nat)
                + " cannot fit one-bit RQ codes and factors"@,
            IndexError::MemoryBudgetZero => "DiskANN memory budget must be greater than 0"@,
            IndexError::FieldZero { field } => field.name() + " must be greater than 0"@,
            IndexError::NotDivisible { dimension, m } => "dimension "@
                + numerals::decimal(dimension as nat) + " must be divisible by m "@
                + numerals::decimal(m as nat),
            IndexError::UnknownIndexMagic { magic } => "unknown vector index magic: "@
                + numerals::hex(magic),
            IndexError::DataSizeOverflow => "vector count * dimension overflows usize"@,
            IndexError::DataLength { len, expected } => "data length "@
                + numerals::decimal(len as nat) + " does not match vector count * dimension "@
                + numerals::decimal(expected as nat),
            IndexError::IdCount { len, expected } => "ids length "@
                + numerals::decimal(len as nat) + " does not match vector count "@
                + numerals::decimal(expected as nat),
            IndexError::NoSuchStorage => "no storage for this index type"@,
            IndexError::RangeCutNotFinite => "cut is not finite"@,
            IndexError::RangeCutNegative => "cut must be non-negative for squared-L2"@,
            IndexError::RangeInverted => "inverted band"@,
            IndexError::EndpointNotFinite => "endpoint is not finite"@,
            IndexError::LowerOperator => "lower endpoint accepts Ge or Gt"@,
            IndexError::UpperOperator => "upper endpoint accepts Le or Lt"@,
            IndexError::EndpointNoCut => "endpoint has no representable cut; do not push this predicate down"@,
            IndexError::NonFiniteQuery => "non-finite normalized query"@,
            IndexError::NonFiniteCentroid => "non-finite IVF centroid"@,
            IndexError::NonFiniteCentroidDistance { list } => "non-finite query-centroid distance for list "@
                + numerals::decimal(list as nat),
            IndexError::NonFiniteCosine => "non-finite cosine vector or norm"@,
            IndexError::NonFiniteDistance { id } => "non-finite distance computed for row "@
                + numerals::signed(id as int),
            IndexError::PqShape => "invalid PQ shape"@,
            IndexError::PqChunkBounds => "invalid PQ chunk bounds"@,
            IndexError::PqChunkOrder => "PQ chunk offsets must be strictly increasing"@,
        }
    }

    pub fn kind(self) -> (r: ErrorKind)
        ensures
            r == self.spec_kind(),
    {
        match self {
            IndexError::GraphSizeOverflow => ErrorKind::InvalidInput,
            IndexError::ValueExceedsU32 { .. } => ErrorKind::InvalidInput,
            IndexError::NqZero => ErrorKind::InvalidInput,
            IndexError::QuerySizeOverflow => ErrorKind::InvalidInput,
            IndexError::QueriesLength { .. } => ErrorKind::InvalidInput,
            IndexError::QueryLength { .. } => ErrorKind::InvalidInput,
            IndexError::KZero => ErrorKind::InvalidInput,
            IndexError::NprobeZero => ErrorKind::InvalidInput,
            IndexError::LengthExceedsI32 { .. } => ErrorKind::InvalidInput,
            IndexError::LengthExceedsI64 { .. } => ErrorKind::InvalidInput,
            IndexError::OffsetExceedsI64 { .. } => ErrorKind::InvalidInput,
            IndexError::TooManyVectors => ErrorKind::InvalidInput,
            IndexError::DimensionZero => ErrorKind::InvalidInput,
            IndexError::NlistZero => ErrorKind::InvalidInput,
            IndexError::ListStorage { .. } => ErrorKind::InvalidInput,
            IndexError::CentroidLength { .. } => ErrorKind::InvalidInput,
            IndexError::VectorLengthOverflow { .. } => ErrorKind::InvalidInput,
            IndexError::ListVectorLength { .. } => ErrorKind::InvalidInput,
            IndexError::UnexpectedEof => ErrorKind::UnexpectedEof,
            IndexError::ListIdRange { .. } => ErrorKind::InvalidInput,
            IndexError::RoaringFilter => ErrorKind::InvalidInput,
            IndexError::VectorDataTooShort { .. } => ErrorKind::InvalidInput,
            IndexError::GraphNotBuilt { .. } => ErrorKind::InvalidInput,
            IndexError::GraphMismatch { .. } => ErrorKind::InvalidInput,
            IndexError::GraphOfEmptyList { .. } => ErrorKind::InvalidInput,
            IndexError::SqDimension => ErrorKind::InvalidInput,
            IndexError::SqListDimension { .. } => ErrorKind::InvalidInput,
            IndexError::SqListCount => ErrorKind::InvalidInput,
            IndexError::SqBoundsLength { .. } => ErrorKind::InvalidInput,
            IndexError::SqBoundsNotFinite { .. } => ErrorKind::InvalidInput,
            IndexError::ListCodeLength { .. } => ErrorKind::InvalidInput,
            IndexError::CodesTruncated { .. } => ErrorKind::UnexpectedEof,
            IndexError::QueryBits { .. } => ErrorKind::InvalidInput,
            IndexError::ListFactorCount { .. } => ErrorKind::InvalidInput,
            IndexError::VectorCountZero => ErrorKind::InvalidInput,
            IndexError::TopKZero => ErrorKind::InvalidInput,
            IndexError::TrainingCountOverflow => ErrorKind::InvalidInput,
            IndexError::CandidateCountOverflow => ErrorKind::InvalidInput,
            IndexError::RowBytesOverflow => ErrorKind::InvalidInput,
            IndexError::RowBudget { .. } => ErrorKind::InvalidInput,
            IndexError::MemoryBudgetZero => ErrorKind::InvalidInput,
            IndexError::FieldZero { .. } => ErrorKind::InvalidInput,
            IndexError::NotDivisible { .. } => ErrorKind::InvalidInput,
            IndexError::DataSizeOverflow => ErrorKind::InvalidInput,
            IndexError::DataLength { .. } => ErrorKind::InvalidInput,
            IndexError::IdCount { .. } => ErrorKind::InvalidInput,
            IndexError::NoSuchStorage => ErrorKind::Unsupported,
            IndexError::RangeCutNotFinite => ErrorKind::InvalidInput,
            IndexError::RangeCutNegative => ErrorKind::InvalidInput,
            IndexError::RangeInverted => ErrorKind::InvalidInput,
            IndexError::EndpointNotFinite => ErrorKind::InvalidInput,
            IndexError::LowerOperator => ErrorKind::InvalidInput,
            IndexError::UpperOperator => ErrorKind::InvalidInput,
            IndexError::EndpointNoCut => ErrorKind::Unsupported,
            IndexError::PqShape => ErrorKind::InvalidInput,
            IndexError::PqChunkBounds => ErrorKind::InvalidInput,
            IndexError::PqChunkOrder => ErrorKind::InvalidInput,
            _ => ErrorKind::InvalidData,
        }
    }

    /// The error in words.
    pub fn message(self) -> (r: String)
        ensures
            r@ == self.words(),
    {
        match self {
            IndexError::VarintTruncated => String::from_str("truncated varint"),
            IndexError::VarintTooLong => String::from_str("varint exceeds 64 bits"),
            IndexError::IdsNotSorted => String::from_str("decoded ID sequence is not monotonically non-decreasing"),
            IndexError::IdsTrailingBytes => String::from_str("trailing bytes in delta-varint ID section"),
            IndexError::GraphSizeOverflow => String::from_str("n * dimension overflows usize"),
            IndexError::GraphVectorLength { len, expected } => String::from_str("graph vector length ")
                .concat(numerals::decimal_text(len as u64).as_str())
                .concat(" does not match n*d ")
                .concat(numerals::decimal_text(expected as u64).as_str()),
            IndexError::GraphLevelCount => String::from_str("graph level metadata does not match vector count"),
            IndexError::GraphEntryPoint { entry_point, count } => String::from_str("graph entry point ")
                .concat(numerals::decimal_text(entry_point as u64).as_str())
                .concat(" out of range ")
                .concat(numerals::decimal_text(count as u64).as_str()),
            IndexError::GraphMaxLevel { stated, observed } => String::from_str("graph max level ")
                .concat(numerals::decimal_text(stated as u64).as_str())
                .concat(" does not match observed ")
                .concat(numerals::decimal_text(observed as u64).as_str()),
            IndexError::GraphEntryLevel => String::from_str("graph entry point does not reach max observed level"),
            IndexError::GraphLevelAdjacency { node } => String::from_str("graph node ")
                .concat(numerals::decimal_text(node as u64).as_str())
                .concat(" has invalid level adjacency"),
            IndexError::GraphEdge { node, neighbor, level } => String::from_str("graph edge ")
                .concat(numerals::decimal_text(node as u64).as_str())
                .concat(" -> ")
                .concat(numerals::decimal_text(neighbor as u64).as_str())
                .concat(" at level ")
                .concat(numerals::decimal_text(level as u64).as_str())
                .concat(" is invalid"),
            IndexError::ValueExceedsU32 { value } => String::from_str("value ")
                .concat(numerals::decimal_text(value as u64).as_str())
                .concat(" exceeds u32 limit"),
            IndexError::GraphTruncated => String::from_str("truncated HNSW graph section"),
            IndexError::GraphMagic { magic } => String::from_str("Invalid HNSW graph magic: ")
                .concat(numerals::hex_text(magic).as_str()),
            IndexError::GraphVersion { version } => String::from_str("Unsupported HNSW graph version: ")
                .concat(numerals::decimal_text(version as u64).as_str()),
            IndexError::GraphUnknownFlags { flags } => String::from_str("Unsupported HNSW graph flags: ")
                .concat(numerals::hex_text(flags).as_str()),
            IndexError::GraphMissingFlags => String::from_str("HNSW graph v1 requires delta-varint adjacency encoding"),
            IndexError::GraphNumberTooLarge { number } => String::from_str("HNSW graph varint value ")
                .concat(numerals::decimal_text(number as u64).as_str())
                .concat(" exceeds u32 limit"),
            IndexError::GraphCount { stored, count } => String::from_str("graph count ")
                .concat(numerals::decimal_text(stored as u64).as_str())
                .concat(" does not match list count ")
                .concat(numerals::decimal_text(count as u64).as_str()),
            IndexError::GraphNodeLevel { node, level, max_level } => String::from_str("graph node ")
                .concat(numerals::decimal_text(node as u64).as_str())
                .concat(" level ")
                .concat(numerals::decimal_text(level as u64).as_str())
                .concat(" exceeds max_level ")
                .concat(numerals::decimal_text(numerals::one_less(max_level)).as_str()),
            IndexError::GraphDegree { node, degree, level, max_degree } => String::from_str("graph node ")
                .concat(numerals::decimal_text(node as u64).as_str())
                .concat(" degree ")
                .concat(numerals::decimal_text(degree as u64).as_str())
                .concat(" at level ")
                .concat(numerals::decimal_text(level as u64).as_str())
                .concat(" exceeds max degree ")
                .concat(numerals::decimal_text(max_degree as u64).as_str()),
            IndexError::GraphNeighborTooLarge { number } => String::from_str("graph neighbor id ")
                .concat(numerals::decimal_text(number as u64).as_str())
                .concat(" is out of range"),
            IndexError::GraphTrailingBytes => String::from_str("trailing bytes in HNSW graph section"),
            IndexError::NqZero => String::from_str("nq must be greater than 0"),
            IndexError::QuerySizeOverflow => String::from_str("nq * dimension overflows usize"),
            IndexError::QueriesLength { len, expected } => String::from_str("queries length ")
                .concat(numerals::decimal_text(len as u64).as_str())
                .concat(" does not match nq * dimension ")
                .concat(numerals::decimal_text(expected as u64).as_str()),
            IndexError::QueryLength { len, expected } => String::from_str("query length ")
                .concat(numerals::decimal_text(len as u64).as_str())
                .concat(" does not match index dimension ")
                .concat(numerals::decimal_text(expected as u64).as_str()),
            IndexError::KZero => String::from_str("k must be greater than 0"),
            IndexError::NprobeZero => String::from_str("nprobe must be greater than 0"),
            IndexError::ReservedBytes => String::from_str("reserved bytes must be zero"),
            IndexError::HeaderNotPositive { field, found } => String::from_str("invalid header field ")
                .concat(field.header_text())
                .concat(": ")
                .concat(numerals::signed_text(found as i64).as_str())
                .concat(" (must be positive)"),
            IndexError::LengthExceedsI32 { field, value } => String::from_str(field.text())
                .concat(" exceeds i32 length limit: ")
                .concat(numerals::decimal_text(value as u64).as_str()),
            IndexError::LengthExceedsI64 { field, value } => String::from_str(field.text())
                .concat(" exceeds i64 length limit: ")
                .concat(numerals::decimal_text(value as u64).as_str()),
            IndexError::OffsetExceedsI64 { at } => String::from_str("list offset exceeds i64 offset limit: ")
                .concat(numerals::decimal_text(at as u64).as_str()),
            IndexError::SectionSizeOverflow => String::from_str("section size overflow"),
            IndexError::SectionTooLarge { size } => String::from_str("section size ")
                .concat(numerals::decimal_text(size as u64).as_str())
                .concat(" exceeds maximum 1073741824"),
            IndexError::NegativeListOffset { offset, list_id } => String::from_str("negative list offset ")
                .concat(numerals::signed_text(offset as i64).as_str())
                .concat(" at list ")
                .concat(numerals::decimal_text(list_id as u64).as_str()),
            IndexError::ListBytesOverflow => String::from_str("list byte size overflow"),
            IndexError::Unaligned => String::from_str("f32 byte section is not 4-byte aligned"),
            IndexError::NotFinite { place } => String::from_str("section contains non-finite value at offset ")
                .concat(numerals::decimal_text(place as u64).as_str()),
            IndexError::TooManyVectors => String::from_str("total vector count exceeds i64 length limit"),
            IndexError::DimensionZero => String::from_str("dimension must be greater than 0"),
            IndexError::NlistZero => String::from_str("nlist must be greater than 0"),
            IndexError::ListStorage { file: FileKind::IvfHnswSq } => String::from_str("inverted list count does not match nlist"),
            IndexError::ListStorage { file } => String::from_str(file.title_text())
                .concat(" list storage does not match nlist"),
            IndexError::CentroidLength { file: FileKind::IvfHnswSq, len, expected } => String::from_str("quantizer centroid length ")
                .concat(numerals::decimal_text(len as u64).as_str())
                .concat(" does not match nlist*d ")
                .concat(numerals::decimal_text(expected as u64).as_str()),
            IndexError::CentroidLength { len, expected, .. } => String::from_str("centroid length ")
                .concat(numerals::decimal_text(len as u64).as_str())
                .concat(" does not match nlist*d ")
                .concat(numerals::decimal_text(expected as u64).as_str()),
            IndexError::VectorLengthOverflow { file } => String::from_str(file.title_text())
                .concat(" vector length overflow"),
            IndexError::ListVectorLength { list_id, len, expected } => String::from_str("list ")
                .concat(numerals::decimal_text(list_id as u64).as_str())
                .concat(" vector length ")
                .concat(numerals::decimal_text(len as u64).as_str())
                .concat(" does not match ids*d ")
                .concat(numerals::decimal_text(expected as u64).as_str()),
            IndexError::UnexpectedEof => String::from_str("failed to fill whole buffer"),
            IndexError::FileMagic { file, magic } => String::from_str("Invalid ")
                .concat(file.text())
                .concat(" magic: ")
                .concat(numerals::hex_text(magic).as_str()),
            IndexError::FileVersion { file, version } => String::from_str("Unsupported ")
                .concat(file.text())
                .concat(" version: ")
                .concat(numerals::decimal_text(version as u64).as_str()),
            IndexError::UnknownMetric { code } => String::from_str("Unknown metric type: ")
                .concat(numerals::decimal_text(code as u64).as_str()),
            IndexError::NegativeListCount { found, list_id } => String::from_str("negative list count ")
                .concat(numerals::signed_text(found as i64).as_str())
                .concat(" at list ")
                .concat(numerals::decimal_text(list_id as u64).as_str()),
            IndexError::NegativeIdBytes { found, list_id } => String::from_str("negative id_bytes_len ")
                .concat(numerals::signed_text(found as i64).as_str())
                .concat(" at list ")
                .concat(numerals::decimal_text(list_id as u64).as_str()),
            IndexError::ListIdRange { list_id, nlist } => String::from_str("list_id ")
                .concat(numerals::decimal_text(list_id as u64).as_str())
                .concat(" out of range (nlist=")
                .concat(numerals::decimal_text(nlist as u64).as_str())
                .concat(")"),
            IndexError::PayloadOverflow { file: FileKind::IvfHnswSq } => String::from_str("IVF-HNSW-SQ list payload length overflow"),
            IndexError::PayloadOverflow { file } => String::from_str(file.title_text())
                .concat(" list payload overflow"),
            IndexError::IdBytesMismatch { file } => String::from_str(file.title_text())
                .concat(" id_bytes_len mismatch"),
            IndexError::DeltaIdsOnly => String::from_str("IVF-FLAT reader only supports delta IDs"),
            IndexError::RoaringFilter => String::from_str("invalid RoaringTreemap filter"),
            IndexError::VectorDataTooShort { len, expected } => String::from_str("vector data length ")
                .concat(numerals::decimal_text(len as u64).as_str())
                .concat(" is shorter than n*d ")
                .concat(numerals::decimal_text(expected as u64).as_str()),
            IndexError::NegativeGraphBytes { found, list_id } => String::from_str("negative graph_bytes_len ")
                .concat(numerals::signed_text(found as i64).as_str())
                .concat(" at list ")
                .concat(numerals::decimal_text(list_id as u64).as_str()),
            IndexError::NegativePayloadBytes { offset, list_id } => String::from_str("negative payload_bytes_len ")
                .concat(numerals::signed_text(offset as i64).as_str())
                .concat(" at list ")
                .concat(numerals::decimal_text(list_id as u64).as_str()),
            IndexError::MissingGraph { list_id } => String::from_str("list ")
                .concat(numerals::decimal_text(list_id as u64).as_str())
                .concat(" is missing HNSW graph"),
            IndexError::GraphNotBuilt { list_id } => String::from_str("list ")
                .concat(numerals::decimal_text(list_id as u64).as_str())
                .concat(" is missing HNSW graph; call build_graphs first"),
            IndexError::GraphMismatch { file: FileKind::IvfHnswSq, list_id } => String::from_str("list ")
                .concat(numerals::decimal_text(list_id as u64).as_str())
                .concat(" graph does not match SQ code storage"),
            IndexError::GraphMismatch { list_id, .. } => String::from_str("list ")
                .concat(numerals::decimal_text(list_id as u64).as_str())
                .concat(" graph does not match vector storage"),
            IndexError::GraphOfEmptyList { list_id } => String::from_str("list ")
                .concat(numerals::decimal_text(list_id as u64).as_str())
                .concat(" has graph for an empty list"),
            IndexError::FileFlags { file, flags } => String::from_str("Unsupported ")
                .concat(file.text())
                .concat(" flags: ")
                .concat(numerals::hex_text(flags).as_str()),
            IndexError::FileFlagsMissing { file: FileKind::IvfHnswSq } => String::from_str("IVF_HNSW_SQ v1 requires delta-varint IDs and graph v1"),
            IndexError::FileFlagsMissing { file } => String::from_str(file.text())
                .concat(" v1 requires delta IDs"),
            IndexError::SqDimension => String::from_str("SQ dimension does not match index dimension"),
            IndexError::SqListDimension { list_id } => String::from_str("SQ dimension for list ")
                .concat(numerals::decimal_text(list_id as u64).as_str())
                .concat(" does not match index dimension"),
            IndexError::SqListCount => String::from_str("SQ list bounds count does not match nlist"),
            IndexError::SqBoundsLength { d, mins, maxs } => String::from_str("SQ bounds length mismatch: d=")
                .concat(numerals::decimal_text(d as u64).as_str())
                .concat(", mins=")
                .concat(numerals::decimal_text(mins as u64).as_str())
                .concat(", maxs=")
                .concat(numerals::decimal_text(maxs as u64).as_str()),
            IndexError::SqBoundsNotFinite { place } => String::from_str("SQ bounds at dimension ")
                .concat(numerals::decimal_text(place as u64).as_str())
                .concat(" must be finite"),
            IndexError::SqSummary => String::from_str("SQ bounds summary does not match global SQ bounds"),
            IndexError::ListCodeLength { file: FileKind::IvfHnswSq, list_id, len, expected } => String::from_str("list ")
                .concat(numerals::decimal_text(list_id as u64).as_str())
                .concat(" SQ code length ")
                .concat(numerals::decimal_text(len as u64).as_str())
                .concat(" does not match count*d ")
                .concat(numerals::decimal_text(expected as u64).as_str()),
            IndexError::ListCodeLength { list_id, len, expected, .. } => String::from_str("list ")
                .concat(numerals::decimal_text(list_id as u64).as_str())
                .concat(" code length ")
                .concat(numerals::decimal_text(len as u64).as_str())
                .concat(" does not match ids*code_size ")
                .concat(numerals::decimal_text(expected as u64).as_str()),
            IndexError::MissingPayloadLength { list_id } => String::from_str("list ")
                .concat(numerals::decimal_text(list_id as u64).as_str())
                .concat(" is missing payload length"),
            IndexError::PayloadTooShort { list_id, len, expected } => String::from_str("list ")
                .concat(numerals::decimal_text(list_id as u64).as_str())
                .concat(" payload length ")
                .concat(numerals::decimal_text(len as u64).as_str())
                .concat(" is shorter than expected ")
                .concat(numerals::decimal_text(expected as u64).as_str()),
            IndexError::PayloadLength { list_id, len, expected } => String::from_str("list ")
                .concat(numerals::decimal_text(list_id as u64).as_str())
                .concat(" payload length ")
                .concat(numerals::decimal_text(len as u64).as_str())
                .concat(" does not match expected ")
                .concat(numerals::decimal_text(expected as u64).as_str()),
            IndexError::CodesTruncated { list_id } => String::from_str("list ")
                .concat(numerals::decimal_text(list_id as u64).as_str())
                .concat(" has truncated SQ codes payload"),
            IndexError::PayloadsOverlap => String::from_str("list payload offsets overlap"),
            IndexError::PayloadEndOverflow => String::from_str("list payload offset overflows u64"),
            IndexError::ReadRangeTooLarge => String::from_str("coalesced read range exceeds usize"),
            IndexError::NegativeTotal { offset } => String::from_str("negative total vector count: ")
                .concat(numerals::signed_text(offset as i64).as_str()),
            IndexError::CodeSize { len, expected } => String::from_str("IVF-RQ code_size ")
                .concat(numerals::decimal_text(len as u64).as_str())
                .concat(" does not match dimension-derived size ")
                .concat(numerals::decimal_text(expected as u64).as_str()),
            IndexError::RqNumBits { code } => String::from_str("unsupported IVF-RQ num_bits ")
                .concat(numerals::decimal_text(code as u64).as_str())
                .concat("; expected 1, 2, 4, or 8"),
            IndexError::RqRotationType { code } => String::from_str("unsupported IVF-RQ rotation_type ")
                .concat(numerals::decimal_text(code as u64).as_str())
                .concat("; expected 1"),
            IndexError::RqFactorLayout { code } => String::from_str("unsupported IVF-RQ factor_layout ")
                .concat(numerals::decimal_text(code as u64).as_str())
                .concat("; expected 1"),
            IndexError::RqFormatFlags { flags } => String::from_str("unsupported IVF-RQ format_flags: ")
                .concat(numerals::hex_text(flags).as_str()),
            IndexError::RqOptionalSections { code, flags } => String::from_str("IVF-RQ reader currently supports only num_bits=1 without optional sections; got num_bits=")
                .concat(numerals::decimal_text(code as u64).as_str())
                .concat(", format_flags=")
                .concat(numerals::hex_text(flags).as_str()),
            IndexError::QueryBits { value } => String::from_str("invalid IVF-RQ query_bits ")
                .concat(numerals::decimal_text(value as u64).as_str())
                .concat("; expected 0, 4, or 8"),
            IndexError::ListFactorCount { list_id, len, expected } => String::from_str("list ")
                .concat(numerals::decimal_text(list_id as u64).as_str())
                .concat(" factor count ")
                .concat(numerals::decimal_text(len as u64).as_str())
                .concat(" does not match ids ")
                .concat(numerals::decimal_text(expected as u64).as_str()),
            IndexError::FactorsUnaligned => String::from_str("IVF-RQ factor section is not 12-byte aligned"),
            IndexError::VectorCountZero => String::from_str("vector count must be greater than 0"),
            IndexError::TopKZero => String::from_str("top_k must be greater than 0"),
            IndexError::TrainingCountOverflow => String::from_str("automatic training vector count overflows usize"),
            IndexError::CandidateCountOverflow => String::from_str("automatic nprobe candidate count overflows usize"),
            IndexError::RowBytesOverflow => String::from_str("row byte estimate overflows usize"),
            IndexError::RowBudget { max_bytes } => String::from_str("max bytes per vector ")
                .concat(numerals::decimal_text(max_bytes as u64).as_str())
                .concat(" cannot fit one-bit RQ codes and factors"),
            IndexError::MemoryBudgetZero => String::from_str("DiskANN memory budget must be greater than 0"),
            IndexError::FieldZero { field } => String::from_str(field.text())
                .concat(" must be greater than 0"),
            IndexError::NotDivisible { dimension, m } => String::from_str("dimension ")
                .concat(numerals::decimal_text(dimension as u64).as_str())
                .concat(" must be divisible by m ")
                .concat(numerals::decimal_text(m as u64).as_str()),
            IndexError::UnknownIndexMagic { magic } => String::from_str("unknown vector index magic: ")
                .concat(numerals::hex_text(magic).as_str()),
            IndexError::DataSizeOverflow => String::from_str("vector count * dimension overflows usize"),
            IndexError::DataLength { len, expected } => String::from_str("data length ")
                .concat(numerals::decimal_text(len as u64).as_str())
                .concat(" does not match vector count * dimension ")
                .concat(numerals::decimal_text(expected as u64).as_str()),
            IndexError::IdCount { len, expected } => String::from_str("ids length ")
                .concat(numerals::decimal_text(len as u64).as_str())
                .concat(" does not match vector count ")
                .concat(numerals::decimal_text(expected as u64).as_str()),
            IndexError::NoSuchStorage => String::from_str("no storage for this index type"),
            IndexError::RangeCutNotFinite => String::from_str("cut is not finite"),
            IndexError::RangeCutNegative => String::from_str("cut must be non-negative for squared-L2"),
            IndexError::RangeInverted => String::from_str("inverted band"),
            IndexError::EndpointNotFinite => String::from_str("endpoint is not finite"),
            IndexError::LowerOperator => String::from_str("lower endpoint accepts Ge or Gt"),
            IndexError::UpperOperator => String::from_str("upper endpoint accepts Le or Lt"),
            IndexError::EndpointNoCut => String::from_str("endpoint has no representable cut; do not push this predicate down"),
            IndexError::NonFiniteQuery => String::from_str("non-finite normalized query"),
            IndexError::NonFiniteCentroid => String::from_str("non-finite IVF centroid"),
            IndexError::NonFiniteCentroidDistance { list } => String::from_str("non-finite query-centroid distance for list ")
                .concat(numerals::decimal_text(list as u64).as_str()),
            IndexError::NonFiniteCosine => String::from_str("non-finite cosine vector or norm"),
            IndexError::NonFiniteDistance { id } => String::from_str("non-finite distance computed for row ")
                .concat(numerals::signed_text(id as i64).as_str()),
            IndexError::PqShape => String::from_str("invalid PQ shape"),
            IndexError::PqChunkBounds => String::from_str("invalid PQ chunk bounds"),
            IndexError::PqChunkOrder => String::from_str("PQ chunk offsets must be strictly increasing"),
        }
    }
}

} // verus!

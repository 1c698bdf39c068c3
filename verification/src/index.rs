//! The kinds of index under one roof: their names, their settings and their files.
use crate::config_options;
use crate::config_options::{ConfigError, Fault};
use crate::distance::MetricType;
use crate::error::{ErrorKind, Field, IndexError};
use crate::graph_lists::GraphHeader;
use crate::hnsw::HnswBuildParams;
use crate::ivfflat::IVFFlatIndex;
use crate::ivfflat_io;
use crate::ivfflat_io::{FlatHeader, IVFFlatIndexReader};
use crate::ivfhnswflat::IVFHNSWFlatIndex;
use crate::ivfhnswflat_io;
use crate::ivfhnswflat_io::IVFHNSWFlatIndexReader;
use crate::ivfhnswsq;
use crate::ivfhnswsq::IVFHNSWSQIndex;
use crate::ivfhnswsq_io;
use crate::ivfhnswsq_read;
use crate::ivfhnswsq_read::IVFHNSWSQIndexReader;
use crate::list_graphs;
use crate::little_endian;
use crate::sq::ScalarQuantizer;
use vstd::prelude::*;

verus! {

/// A kind of index.
#[derive(Debug, Clone, Copy, PartialEq, Eq, Structural)]
pub enum IndexType {
    IvfFlat,
    IvfPq,
    IvfHnswFlat,
    IvfHnswSq,
    IvfRq,
    IvfSq,
    DiskAnn,
}

impl IndexType {
    pub open spec fn spec_from_code(code: u32) -> Option<IndexType> {
        if code == 0 {
            Some(IndexType::IvfFlat)
        } else if code == 1 {
            Some(IndexType::IvfPq)
        } else if code == 2 {
            Some(IndexType::IvfHnswFlat)
        } else if code == 3 {
            Some(IndexType::IvfHnswSq)
        } else {
            None
        }
    }

    pub open spec fn spec_name(self) -> Seq<char> {
        match self {
            IndexType::IvfFlat => "ivf_flat"@,
            IndexType::IvfPq => "ivf_pq"@,
            IndexType::IvfHnswFlat => "ivf_hnsw_flat"@,
            IndexType::IvfHnswSq => "ivf_hnsw_sq"@,
            IndexType::IvfRq => "ivf_rq"@,
            IndexType::IvfSq => "ivf_sq"@,
            IndexType::DiskAnn => "diskann"@,
        }
    }

    /// The kind with this code. Only the kinds that one reader opens have one.
    pub fn from_code(code: u32) -> (r: Option<Self>)
        ensures
            r == Self::spec_from_code(code),
    {
        match code {
            0 => Some(IndexType::IvfFlat),
            1 => Some(IndexType::IvfPq),
            2 => Some(IndexType::IvfHnswFlat),
            3 => Some(IndexType::IvfHnswSq),
            _ => None,
        }
    }

    pub fn as_str(self) -> (r: &'static str)
        ensures
            r@ == self.spec_name(),
    {
        match self {
            IndexType::IvfFlat => "ivf_flat",
            IndexType::IvfPq => "ivf_pq",
            IndexType::IvfHnswFlat => "ivf_hnsw_flat",
            IndexType::IvfHnswSq => "ivf_hnsw_sq",
            IndexType::IvfRq => "ivf_rq",
            IndexType::IvfSq => "ivf_sq",
            IndexType::DiskAnn => "diskann",
        }
    }
}

/// The settings of an index.
#[derive(Debug, Clone, Copy, PartialEq, Eq, Structural)]
pub enum VectorIndexConfig {
    IvfFlat { dimension: usize, nlist: usize, metric: MetricType },
    IvfPq { dimension: usize, nlist: usize, m: usize, metric: MetricType, use_opq: bool },
    IvfHnswFlat { dimension: usize, nlist: usize, metric: MetricType, hnsw: HnswBuildParams },
    IvfHnswSq { dimension: usize, nlist: usize, metric: MetricType, hnsw: HnswBuildParams },
}

/// What is wrong with the settings of graphs.
pub open spec fn hnsw_fault(hnsw: HnswBuildParams) -> Option<IndexError> {
    if hnsw.m == 0 {
        Some(IndexError::FieldZero { field: Field::HnswM })
    } else if hnsw.ef_construction == 0 {
        Some(IndexError::FieldZero { field: Field::HnswEfConstruction })
    } else if hnsw.max_level == 0 {
        Some(IndexError::FieldZero { field: Field::HnswMaxLevel })
    } else {
        None
    }
}

impl VectorIndexConfig {
    pub open spec fn spec_index_type(self) -> IndexType {
        match self {
            VectorIndexConfig::IvfFlat { .. } => IndexType::IvfFlat,
            VectorIndexConfig::IvfPq { .. } => IndexType::IvfPq,
            VectorIndexConfig::IvfHnswFlat { .. } => IndexType::IvfHnswFlat,
            VectorIndexConfig::IvfHnswSq { .. } => IndexType::IvfHnswSq,
        }
    }

    pub open spec fn spec_dimension(self) -> usize {
        match self {
            VectorIndexConfig::IvfFlat { dimension, .. } => dimension,
            VectorIndexConfig::IvfPq { dimension, .. } => dimension,
            VectorIndexConfig::IvfHnswFlat { dimension, .. } => dimension,
            VectorIndexConfig::IvfHnswSq { dimension, .. } => dimension,
        }
    }

    pub open spec fn spec_nlist(self) -> usize {
        match self {
            VectorIndexConfig::IvfFlat { nlist, .. } => nlist,
            VectorIndexConfig::IvfPq { nlist, .. } => nlist,
            VectorIndexConfig::IvfHnswFlat { nlist, .. } => nlist,
            VectorIndexConfig::IvfHnswSq { nlist, .. } => nlist,
        }
    }

    /// What is wrong with the settings: a size that is zero, or a dimension that does not divide
    /// into the parts of product quantization.
    pub open spec fn fault(self) -> Option<IndexError> {
        if self.spec_dimension() == 0 {
            Some(IndexError::FieldZero { field: Field::Dimension })
        } else if self.spec_nlist() == 0 {
            Some(IndexError::FieldZero { field: Field::Nlist })
        } else {
            match self {
                VectorIndexConfig::IvfFlat { .. } => None,
                VectorIndexConfig::IvfPq { dimension, m, .. } => if m == 0 {
                    Some(IndexError::FieldZero { field: Field::PqM })
                } else if dimension % m != 0 {
                    Some(IndexError::NotDivisible { dimension, m })
                } else {
                    None
                },
                VectorIndexConfig::IvfHnswFlat { hnsw, .. } => hnsw_fault(hnsw),
                VectorIndexConfig::IvfHnswSq { hnsw, .. } => hnsw_fault(hnsw),
            }
        }
    }

    pub fn index_type(&self) -> (r: IndexType)
        ensures
            r == self.spec_index_type(),
    {
        match self {
            VectorIndexConfig::IvfFlat { .. } => IndexType::IvfFlat,
            VectorIndexConfig::IvfPq { .. } => IndexType::IvfPq,
            VectorIndexConfig::IvfHnswFlat { .. } => IndexType::IvfHnswFlat,
            VectorIndexConfig::IvfHnswSq { .. } => IndexType::IvfHnswSq,
        }
    }

    pub fn dimension(&self) -> (r: usize)
        ensures
            r == self.spec_dimension(),
    {
        match self {
            VectorIndexConfig::IvfFlat { dimension, .. } => *dimension,
            VectorIndexConfig::IvfPq { dimension, .. } => *dimension,
            VectorIndexConfig::IvfHnswFlat { dimension, .. } => *dimension,
            VectorIndexConfig::IvfHnswSq { dimension, .. } => *dimension,
        }
    }

    pub fn nlist(&self) -> (r: usize)
        ensures
            r == self.spec_nlist(),
    {
        match self {
            VectorIndexConfig::IvfFlat { nlist, .. } => *nlist,
            VectorIndexConfig::IvfPq { nlist, .. } => *nlist,
            VectorIndexConfig::IvfHnswFlat { nlist, .. } => *nlist,
            VectorIndexConfig::IvfHnswSq { nlist, .. } => *nlist,
        }
    }

    /// Reads the settings from options. The keys may have white space around them; every option has
    /// to be known to the kind of index that is asked for.
    pub fn from_options(options: &Vec<(String, String)>) -> (r: Result<Self, ConfigError>)
        ensures
            match config_options::cleaned(config_options::entries(options@)) {
                Err(fault) => r matches Err(e) && e@ == fault,
                Ok(list) => match config_options::spelled(list) {
                    Err(fault) => r matches Err(e) && e@ == fault,
                    Ok(config) => if exists|k: int|
                        0 <= k < list.len() && !config_options::is_known(
                            config.spec_index_type(),
                            (#[trigger] list[k]).0,
                        ) {
                        r matches Err(ConfigError::UnknownOptions { keys })
                            && config_options::are_unknown(
                            config_options::texts(keys@),
                            list,
                            config.spec_index_type(),
                        )
                    } else {
                        match config.fault() {
                            Some(error) => r matches Err(e) && e@ == (Fault::Invalid { error }),
                            None => r == Ok::<VectorIndexConfig, ConfigError>(config),
                        }
                    },
                },
            },
            r matches Err(e) ==> e@.kind() == ErrorKind::InvalidInput,
    {
        let list: Vec<(String, String)> = match config_options::clean_options(options) {
            Ok(v) => v,
            Err(e) => {
                return Err(e);
            },
        };
        let config = match config_options::parse_config(&list) {
            Ok(v) => v,
            Err(e) => {
                return Err(e);
            },
        };
        let unknown: Vec<String> = config_options::unknown_keys(&list, config.index_type());
        if unknown.len() > 0 {
            return Err(ConfigError::UnknownOptions { keys: unknown });
        }
        match validate_config(&config) {
            Ok(()) => Ok(config),
            Err(error) => Err(ConfigError::Invalid { error }),
        }
    }
}

fn validate_positive(value: usize, field: Field) -> (r: Result<(), IndexError>)
    ensures
        r == (if value == 0 {
            Err(IndexError::FieldZero { field })
        } else {
            Ok(())
        }),
{
    if value == 0 {
        Err(IndexError::FieldZero { field })
    } else {
        Ok(())
    }
}

fn validate_hnsw_params(params: HnswBuildParams) -> (r: Result<(), IndexError>)
    ensures
        r == (match hnsw_fault(params) {
            Some(e) => Err(e),
            None => Ok(()),
        }),
{
    validate_positive(params.m, Field::HnswM)?;
    validate_positive(params.ef_construction, Field::HnswEfConstruction)?;
    validate_positive(params.max_level, Field::HnswMaxLevel)
}

/// Tells whether an index can have these settings.
pub fn validate_config(config: &VectorIndexConfig) -> (r: Result<(), IndexError>)
    ensures
        r == (match config.fault() {
            Some(e) => Err(e),
            None => Ok(()),
        }),
{
    validate_positive(config.dimension(), Field::Dimension)?;
    validate_positive(config.nlist(), Field::Nlist)?;
    match config {
        VectorIndexConfig::IvfFlat { .. } => Ok(()),
        VectorIndexConfig::IvfPq { dimension, m, .. } => {
            validate_positive(*m, Field::PqM)?;
            if *dimension % *m != 0 {
                return Err(IndexError::NotDivisible { dimension: *dimension, m: *m });
            }
            Ok(())
        },
        VectorIndexConfig::IvfHnswFlat { hnsw, .. } => validate_hnsw_params(*hnsw),
        VectorIndexConfig::IvfHnswSq { hnsw, .. } => validate_hnsw_params(*hnsw),
    }
}

/// How a search is run.
#[derive(Debug, Clone, Copy, PartialEq, Eq, Structural)]
pub struct VectorSearchParams {
    pub top_k: usize,
    pub nprobe: usize,
    pub ef_search: usize,
}

impl VectorSearchParams {
    pub fn new(top_k: usize, nprobe: usize) -> (r: Self)
        ensures
            r == (VectorSearchParams { top_k, nprobe, ef_search: 0 }),
    {
        VectorSearchParams { top_k, nprobe, ef_search: 0 }
    }

    pub fn with_ef_search(top_k: usize, nprobe: usize, ef_search: usize) -> (r: Self)
        ensures
            r == (VectorSearchParams { top_k, nprobe, ef_search }),
    {
        VectorSearchParams { top_k, nprobe, ef_search }
    }

    /// The width of a search in a graph: the one that is given, or one for each result and at
    /// least thirty-two.
    pub fn hnsw_ef_search(self) -> (r: usize)
        ensures
            self.ef_search != 0 ==> r == self.ef_search,
            self.ef_search == 0 && self.top_k >= 32 ==> r == self.top_k,
            self.ef_search == 0 && self.top_k < 32 ==> r == 32,
    {
        if self.ef_search != 0 {
            self.ef_search
        } else if self.top_k > 32 {
            self.top_k
        } else {
            32
        }
    }
}

/// What is wrong with a number of values that should be `n` vectors.
pub open spec fn vectors_fault(len: usize, n: usize, dimension: usize) -> Option<IndexError> {
    if n == 0 {
        Some(IndexError::FieldZero { field: Field::VectorCount })
    } else if n * dimension > usize::MAX {
        Some(IndexError::DataSizeOverflow)
    } else if len != n * dimension {
        Some(IndexError::DataLength { len, expected: (n * dimension) as usize })
    } else {
        None
    }
}

/// Tells whether the values are those of `n` vectors.
pub fn validate_vectors(data: &[u32], n: usize, dimension: usize) -> (r: Result<(), IndexError>)
    ensures
        r == (match vectors_fault(data@.len() as usize, n, dimension) {
            Some(e) => Err(e),
            None => Ok(()),
        }),
{
    assert(data@.len() == data.len());
    validate_positive(n, Field::VectorCount)?;
    match n.checked_mul(dimension) {
        Some(expected) => if data.len() != expected {
            Err(IndexError::DataLength { len: data.len(), expected })
        } else {
            Ok(())
        },
        None => Err(IndexError::DataSizeOverflow),
    }
}

/// What is wrong with ids and values that should be those of `n` vectors.
pub open spec fn rows_fault(ids_len: usize, len: usize, n: usize, dimension: usize) -> Option<
    IndexError,
> {
    match vectors_fault(len, n, dimension) {
        Some(e) => Some(e),
        None => if ids_len != n {
            Some(IndexError::IdCount { len: ids_len, expected: n })
        } else {
            None
        },
    }
}

/// Tells whether the values are those of `n` vectors and the ids as many.
pub fn validate_rows(ids: &[i64], data: &[u32], n: usize, dimension: usize) -> (r: Result<
    (),
    IndexError,
>)
    ensures
        r == (match rows_fault(ids@.len() as usize, data@.len() as usize, n, dimension) {
            Some(e) => Err(e),
            None => Ok(()),
        }),
{
    assert(ids@.len() == ids.len());
    validate_vectors(data, n, dimension)?;
    if ids.len() != n {
        return Err(IndexError::IdCount { len: ids.len(), expected: n });
    }
    Ok(())
}

/// An index that is being built.
pub enum VectorIndexWriter {
    IvfFlat(IVFFlatIndex),
    IvfHnswFlat(IVFHNSWFlatIndex),
    IvfHnswSq(IVFHNSWSQIndex),
}

/// The index is a new one with these settings: its lists are empty, and it has neither centroids
/// nor graphs nor bounds.
pub open spec fn is_new_index(writer: VectorIndexWriter, config: VectorIndexConfig) -> bool {
    match (writer, config) {
        (
            VectorIndexWriter::IvfFlat(index),
            VectorIndexConfig::IvfFlat { dimension, nlist, metric },
        ) => {
            &&& index@.d == dimension
            &&& index@.nlist == nlist
            &&& index@.metric == metric
            &&& index@.centroids.len() == 0
            &&& index@.ids == Seq::new(nlist as nat, |i: int| Seq::<i64>::empty())
            &&& index@.vectors == Seq::new(nlist as nat, |i: int| Seq::<u32>::empty())
        },
        (
            VectorIndexWriter::IvfHnswFlat(index),
            VectorIndexConfig::IvfHnswFlat { dimension, nlist, metric, hnsw },
        ) => {
            &&& index@.flat.d == dimension
            &&& index@.flat.nlist == nlist
            &&& index@.flat.metric == metric
            &&& index@.flat.centroids.len() == 0
            &&& index@.flat.ids == Seq::new(nlist as nat, |i: int| Seq::<i64>::empty())
            &&& index@.flat.vectors == Seq::new(nlist as nat, |i: int| Seq::<u32>::empty())
            &&& index@.graphs == list_graphs::no_graphs(nlist as nat)
            &&& index@.hnsw_params == hnsw.spec_sanitized()
        },
        (
            VectorIndexWriter::IvfHnswSq(index),
            VectorIndexConfig::IvfHnswSq { dimension, nlist, metric, hnsw },
        ) => {
            &&& index@.d == dimension
            &&& index@.nlist == nlist
            &&& index@.metric == metric
            &&& index@.centroids.len() == 0
            &&& index@.sq.d == dimension
            &&& index@.sq.mins.len() == 0
            &&& index@.sq.maxs.len() == 0
            &&& index@.list_sqs.len() == 0
            &&& index@.ids == Seq::new(nlist as nat, |i: int| Seq::<i64>::empty())
            &&& index@.codes == Seq::new(nlist as nat, |i: int| Seq::<u8>::empty())
            &&& index@.graphs == list_graphs::no_graphs(nlist as nat)
            &&& index@.hnsw_params == hnsw.spec_sanitized()
        },
        _ => false,
    }
}

impl VectorIndexWriter {
    pub open spec fn spec_index_type(self) -> IndexType {
        match self {
            VectorIndexWriter::IvfFlat(_) => IndexType::IvfFlat,
            VectorIndexWriter::IvfHnswFlat(_) => IndexType::IvfHnswFlat,
            VectorIndexWriter::IvfHnswSq(_) => IndexType::IvfHnswSq,
        }
    }

    pub open spec fn spec_dimension(self) -> usize {
        match self {
            VectorIndexWriter::IvfFlat(index) => index.d,
            VectorIndexWriter::IvfHnswFlat(index) => index.flat.d,
            VectorIndexWriter::IvfHnswSq(index) => index.d,
        }
    }

    /// A new index. Product quantization has no storage of its own here.
    pub fn new(config: VectorIndexConfig) -> (r: Result<Self, IndexError>)
        ensures
            match config.fault() {
                Some(e) => r == Err::<VectorIndexWriter, IndexError>(e),
                None => if config.spec_index_type() == IndexType::IvfPq {
                    r == Err::<VectorIndexWriter, IndexError>(IndexError::NoSuchStorage)
                } else {
                    r matches Ok(writer) && is_new_index(writer, config)
                },
            },
    {
        validate_config(&config)?;
        match config {
            VectorIndexConfig::IvfFlat { dimension, nlist, metric } => Ok(
                VectorIndexWriter::IvfFlat(IVFFlatIndex::new(dimension, nlist, metric)),
            ),
            VectorIndexConfig::IvfPq { .. } => Err(IndexError::NoSuchStorage),
            VectorIndexConfig::IvfHnswFlat { dimension, nlist, metric, hnsw } => Ok(
                VectorIndexWriter::IvfHnswFlat(
                    IVFHNSWFlatIndex::new(dimension, nlist, metric, hnsw.sanitized()),
                ),
            ),
            VectorIndexConfig::IvfHnswSq { dimension, nlist, metric, hnsw } => {
                let sq = ScalarQuantizer { d: dimension, mins: Vec::new(), maxs: Vec::new() };
                Ok(
                    VectorIndexWriter::IvfHnswSq(
                        IVFHNSWSQIndex::new(dimension, nlist, metric, hnsw.sanitized(), sq),
                    ),
                )
            },
        }
    }

    pub fn index_type(&self) -> (r: IndexType)
        ensures
            r == self.spec_index_type(),
    {
        match self {
            VectorIndexWriter::IvfFlat(_) => IndexType::IvfFlat,
            VectorIndexWriter::IvfHnswFlat(_) => IndexType::IvfHnswFlat,
            VectorIndexWriter::IvfHnswSq(_) => IndexType::IvfHnswSq,
        }
    }

    pub fn dimension(&self) -> (r: usize)
        ensures
            r == self.spec_dimension(),
    {
        match self {
            VectorIndexWriter::IvfFlat(index) => index.d,
            VectorIndexWriter::IvfHnswFlat(index) => index.flat.d,
            VectorIndexWriter::IvfHnswSq(index) => index.d,
        }
    }
}

/// What a file says of its index.
#[derive(Debug, Clone, Copy, PartialEq, Eq, Structural)]
pub struct VectorIndexMetadata {
    pub index_type: IndexType,
    pub dimension: usize,
    pub nlist: usize,
    pub metric: MetricType,
    pub total_vectors: i64,
    pub pq_m: Option<usize>,
    pub hnsw: Option<HnswBuildParams>,
}

pub open spec fn flat_metadata(h: FlatHeader) -> VectorIndexMetadata {
    VectorIndexMetadata {
        index_type: IndexType::IvfFlat,
        dimension: h.d,
        nlist: h.nlist,
        metric: h.metric,
        total_vectors: h.total_vectors,
        pq_m: None,
        hnsw: None,
    }
}

pub open spec fn graph_metadata(h: GraphHeader, index_type: IndexType) -> VectorIndexMetadata {
    VectorIndexMetadata {
        index_type,
        dimension: h.d,
        nlist: h.nlist,
        metric: h.metric,
        total_vectors: h.total_vectors,
        pq_m: None,
        hnsw: Some(h.hnsw_params),
    }
}

/// The kind of index that a file holds, by its first four bytes.
pub open spec fn kind_of_file(bytes: Seq<u8>) -> Result<IndexType, IndexError> {
    if bytes.len() < 4 {
        Err(IndexError::UnexpectedEof)
    } else {
        let magic = little_endian::u32_at(bytes, 0);
        if magic == ivfflat_io::IVFFLAT_MAGIC {
            Ok(IndexType::IvfFlat)
        } else if magic == ivfhnswflat_io::IVF_HNSW_FLAT_MAGIC {
            Ok(IndexType::IvfHnswFlat)
        } else if magic == ivfhnswsq_io::IVF_HNSW_SQ_MAGIC {
            Ok(IndexType::IvfHnswSq)
        } else {
            Err(IndexError::UnknownIndexMagic { magic })
        }
    }
}

/// Tells what kind of index a file holds.
pub fn index_type_of_file(bytes: &[u8]) -> (r: Result<IndexType, IndexError>)
    ensures
        r == kind_of_file(bytes@),
{
    if bytes.len() < 4 {
        return Err(IndexError::UnexpectedEof);
    }
    let magic: u32 = little_endian::read_u32_le(bytes, 0);
    if magic == ivfflat_io::IVFFLAT_MAGIC {
        Ok(IndexType::IvfFlat)
    } else if magic == ivfhnswflat_io::IVF_HNSW_FLAT_MAGIC {
        Ok(IndexType::IvfHnswFlat)
    } else if magic == ivfhnswsq_io::IVF_HNSW_SQ_MAGIC {
        Ok(IndexType::IvfHnswSq)
    } else {
        Err(IndexError::UnknownIndexMagic { magic })
    }
}

/// A file that has been opened.
pub enum VectorIndexReader {
    IvfFlat(IVFFlatIndexReader),
    IvfHnswFlat(IVFHNSWFlatIndexReader),
    IvfHnswSq(IVFHNSWSQIndexReader),
}

/// What the first bytes of a file say of its index.
pub open spec fn metadata_of_file(bytes: Seq<u8>) -> Result<VectorIndexMetadata, IndexError> {
    match kind_of_file(bytes) {
        Err(e) => Err(e),
        Ok(IndexType::IvfFlat) => match ivfflat_io::parse_header(bytes) {
            Err(e) => Err(e),
            Ok(h) => Ok(flat_metadata(h)),
        },
        Ok(IndexType::IvfHnswFlat) => match ivfhnswflat_io::parse_header(bytes) {
            Err(e) => Err(e),
            Ok(h) => Ok(graph_metadata(h, IndexType::IvfHnswFlat)),
        },
        Ok(_) => match ivfhnswsq_read::parse_prefix(bytes) {
            Err(e) => Err(e),
            Ok(p) => Ok(graph_metadata(p.header.front, IndexType::IvfHnswSq)),
        },
    }
}

impl VectorIndexReader {
    /// The reader of a file with these first bytes: it has what they say, and has read nothing of
    /// what stands behind them.
    pub open spec fn opened_from(self, bytes: Seq<u8>) -> bool {
        match self {
            VectorIndexReader::IvfFlat(reader) => reader.nothing_loaded()
                && ivfflat_io::parse_header(bytes) == Ok::<FlatHeader, IndexError>(reader.header()),
            VectorIndexReader::IvfHnswFlat(reader) => reader.nothing_loaded()
                && ivfhnswflat_io::parse_header(bytes) == Ok::<GraphHeader, IndexError>(
                reader.header(),
            ),
            VectorIndexReader::IvfHnswSq(reader) => reader.nothing_loaded() && (
            ivfhnswsq_read::parse_prefix(bytes) matches Ok(p) && reader.header() == p.header.front && reader.sq@ == p.sq
                && ivfhnswsq::bounds_of(reader.list_sqs@) == p.list_sqs),
        }
    }

    pub open spec fn spec_metadata(self) -> VectorIndexMetadata {
        match self {
            VectorIndexReader::IvfFlat(reader) => flat_metadata(reader.header()),
            VectorIndexReader::IvfHnswFlat(reader) => graph_metadata(
                reader.header(),
                IndexType::IvfHnswFlat,
            ),
            VectorIndexReader::IvfHnswSq(reader) => graph_metadata(
                reader.header(),
                IndexType::IvfHnswSq,
            ),
        }
    }

    pub open spec fn well_formed(self) -> bool {
        match self {
            VectorIndexReader::IvfFlat(reader) => reader.well_formed(),
            VectorIndexReader::IvfHnswFlat(reader) => reader.well_formed(),
            VectorIndexReader::IvfHnswSq(reader) => reader.well_formed(),
        }
    }

    /// Opens a file by its first bytes: the header, or with quantized vectors all that stands before
    /// the centroids.
    pub fn open(bytes: &[u8]) -> (r: Result<Self, IndexError>)
        ensures
            match metadata_of_file(bytes@) {
                Err(e) => r == Err::<VectorIndexReader, IndexError>(e),
                Ok(metadata) => r matches Ok(reader) && reader.well_formed()
                    && reader.spec_metadata() == metadata && reader.opened_from(bytes@),
            },
    {
        match index_type_of_file(bytes)? {
            IndexType::IvfFlat => match IVFFlatIndexReader::open(bytes) {
                Ok(reader) => Ok(VectorIndexReader::IvfFlat(reader)),
                Err(e) => Err(e),
            },
            IndexType::IvfHnswFlat => match IVFHNSWFlatIndexReader::open(bytes) {
                Ok(reader) => Ok(VectorIndexReader::IvfHnswFlat(reader)),
                Err(e) => Err(e),
            },
            _ => match IVFHNSWSQIndexReader::open(bytes) {
                Ok(reader) => Ok(VectorIndexReader::IvfHnswSq(reader)),
                Err(e) => Err(e),
            },
        }
    }

    pub fn metadata(&self) -> (r: VectorIndexMetadata)
        ensures
            r == self.spec_metadata(),
    {
        match self {
            VectorIndexReader::IvfFlat(reader) => VectorIndexMetadata {
                index_type: IndexType::IvfFlat,
                dimension: reader.d,
                nlist: reader.nlist,
                metric: reader.metric,
                total_vectors: reader.total_vectors,
                pq_m: None,
                hnsw: None,
            },
            VectorIndexReader::IvfHnswFlat(reader) => VectorIndexMetadata {
                index_type: IndexType::IvfHnswFlat,
                dimension: reader.d,
                nlist: reader.nlist,
                metric: reader.metric,
                total_vectors: reader.total_vectors,
                pq_m: None,
                hnsw: Some(reader.hnsw_params),
            },
            VectorIndexReader::IvfHnswSq(reader) => VectorIndexMetadata {
                index_type: IndexType::IvfHnswSq,
                dimension: reader.d,
                nlist: reader.nlist,
                metric: reader.metric,
                total_vectors: reader.total_vectors,
                pq_m: None,
                hnsw: Some(reader.hnsw_params),
            },
        }
    }

    pub fn index_type(&self) -> (r: IndexType)
        ensures
            r == self.spec_metadata().index_type,
    {
        self.metadata().index_type
    }

    pub fn dimension(&self) -> (r: usize)
        ensures
            r == self.spec_metadata().dimension,
    {
        self.metadata().dimension
    }

    pub fn total_vectors(&self) -> (r: i64)
        ensures
            r == self.spec_metadata().total_vectors,
    {
        self.metadata().total_vectors
    }
}

} // verus!

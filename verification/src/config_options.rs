//! Options given as text: names, values, and what can be wrong with them.
use crate::distance::MetricType;
use crate::error::{ErrorKind, IndexError};
use crate::hnsw::HnswBuildParams;
use crate::index::{IndexType, VectorIndexConfig};
use crate::text;
use vstd::prelude::*;
use vstd::string::{StrSliceExecFns, StringExecFns};

verus! {

/// An option that some kind of index has.
#[derive(Debug, Clone, Copy, PartialEq, Eq, Structural)]
pub enum OptionName {
    IndexType,
    Dimension,
    Nlist,
    Metric,
    PqM,
    UseOpq,
    HnswM,
    HnswEfConstruction,
    HnswMaxLevel,
}

impl OptionName {
    pub open spec fn spec_name(self) -> Seq<char> {
        match self {
            OptionName::IndexType => "index.type"@,
            OptionName::Dimension => "dimension"@,
            OptionName::Nlist => "nlist"@,
            OptionName::Metric => "metric"@,
            OptionName::PqM => "pq.m"@,
            OptionName::UseOpq => "use-opq"@,
            OptionName::HnswM => "hnsw.m"@,
            OptionName::HnswEfConstruction => "hnsw.ef-construction"@,
            OptionName::HnswMaxLevel => "hnsw.max-level"@,
        }
    }

    pub fn as_str(self) -> (r: &'static str)
        ensures
            r@ == self.spec_name(),
    {
        match self {
            OptionName::IndexType => "index.type",
            OptionName::Dimension => "dimension",
            OptionName::Nlist => "nlist",
            OptionName::Metric => "metric",
            OptionName::PqM => "pq.m",
            OptionName::UseOpq => "use-opq",
            OptionName::HnswM => "hnsw.m",
            OptionName::HnswEfConstruction => "hnsw.ef-construction",
            OptionName::HnswMaxLevel => "hnsw.max-level",
        }
    }
}

/// What is wrong with a set of options.
#[derive(Debug, Clone, PartialEq, Eq)]
pub enum ConfigError {
    /// A key is nothing but white space.
    EmptyKey,
    DuplicateKey { key: String },
    Missing { option: OptionName },
    UnknownIndexType { value: String },
    UnknownMetric { value: String },
    NotANumber { option: OptionName },
    NotABool { option: OptionName },
    UnknownOptions { keys: Vec<String> },
    Invalid { error: IndexError },
}

/// What is wrong with a set of options, with the texts as sequences of characters.
#[verifier::ext_equal]
pub enum Fault {
    EmptyKey,
    DuplicateKey { key: Seq<char> },
    Missing { option: OptionName },
    UnknownIndexType { value: Seq<char> },
    UnknownMetric { value: Seq<char> },
    NotANumber { option: OptionName },
    NotABool { option: OptionName },
    UnknownOptions { keys: Seq<Seq<char>> },
    Invalid { error: IndexError },
}

/// The characters of each text.
pub open spec fn texts(v: Seq<String>) -> Seq<Seq<char>> {
    Seq::new(v.len(), |i: int| v[i]@)
}

impl View for ConfigError {
    type V = Fault;

    open spec fn view(&self) -> Fault {
        match *self {
            ConfigError::EmptyKey => Fault::EmptyKey,
            ConfigError::DuplicateKey { key } => Fault::DuplicateKey { key: key@ },
            ConfigError::Missing { option } => Fault::Missing { option },
            ConfigError::UnknownIndexType { value } => Fault::UnknownIndexType { value: value@ },
            ConfigError::UnknownMetric { value } => Fault::UnknownMetric { value: value@ },
            ConfigError::NotANumber { option } => Fault::NotANumber { option },
            ConfigError::NotABool { option } => Fault::NotABool { option },
            ConfigError::UnknownOptions { keys } => Fault::UnknownOptions { keys: texts(keys@) },
            ConfigError::Invalid { error } => Fault::Invalid { error },
        }
    }
}

/// The texts, one behind the other, with a comma between any two.
pub open spec fn joined(keys: Seq<Seq<char>>) -> Seq<char>
    decreases keys.len(),
{
    if keys.len() == 0 {
        Seq::empty()
    } else if keys.len() == 1 {
        keys[0]
    } else {
        joined(keys.drop_last()) + ", "@ + keys.last()
    }
}

impl Fault {
    /// The class of the fault.
    pub open spec fn kind(self) -> ErrorKind {
        match self {
            Fault::Invalid { error } => error.spec_kind(),
            _ => ErrorKind::InvalidInput,
        }
    }

    /// The fault in words.
    pub open spec fn words(self) -> Seq<char> {
        match self {
            Fault::EmptyKey => "option key must not be empty"@,
            Fault::DuplicateKey { key } => "duplicate option key '"@ + key + "'"@,
            Fault::Missing { option } => "missing required option '"@ + option.spec_name() + "'"@,
            Fault::UnknownIndexType { value } => "unknown index.type '"@ + value
                + "'; expected ivf_flat, ivf_pq, ivf_hnsw_flat, or ivf_hnsw_sq"@,
            Fault::UnknownMetric { value } => "unknown metric '"@ + value
                + "'; expected l2, inner_product, or cosine"@,
            Fault::NotANumber { option } => "option '"@ + option.spec_name()
                + "' must be a positive integer"@,
            Fault::NotABool { option } => "option '"@ + option.spec_name()
                + "' must be true or false"@,
            Fault::UnknownOptions { keys } => "unknown vector index option(s): "@ + joined(keys),
            Fault::Invalid { error } => error.words(),
        }
    }
}

fn quoted(before: &str, middle: &str, after: &str) -> (r: String)
    ensures
        r@ == before@ + middle@ + after@,
{
    String::from_str(before).concat(middle).concat(after)
}

fn join(keys: &Vec<String>) -> (r: String)
    ensures
        r@ == joined(texts(keys@)),
{
    let n: usize = keys.len();
    if n == 0 {
        return String::new();
    }
    let mut all: String = keys[0].clone();
    assert(texts(keys@).subrange(0, 1).len() == 1);
    for i in 1..n
        invariant
            n == keys@.len(),
            all@ == joined(texts(keys@).subrange(0, i as int)),
    {
        proof {
            let t = texts(keys@).subrange(0, i + 1);
            assert(t.drop_last() =~= texts(keys@).subrange(0, i as int));
            assert(t.last() == keys@[i as int]@);
        }
        all = all.concat(", ").concat(keys[i].as_str());
    }
    assert(texts(keys@).subrange(0, n as int) =~= texts(keys@));
    all
}

impl ConfigError {
    /// The class of the fault.
    pub fn kind(&self) -> (r: ErrorKind)
        ensures
            r == self@.kind(),
    {
        match self {
            ConfigError::Invalid { error } => error.kind(),
            _ => ErrorKind::InvalidInput,
        }
    }

    /// The fault in words.
    pub fn message(&self) -> (r: String)
        ensures
            r@ == self@.words(),
    {
        match self {
            ConfigError::EmptyKey => String::from_str("option key must not be empty"),
            ConfigError::DuplicateKey { key } => quoted("duplicate option key '", key.as_str(), "'"),
            ConfigError::Missing { option } => quoted(
                "missing required option '",
                option.as_str(),
                "'",
            ),
            ConfigError::UnknownIndexType { value } => quoted(
                "unknown index.type '",
                value.as_str(),
                "'; expected ivf_flat, ivf_pq, ivf_hnsw_flat, or ivf_hnsw_sq",
            ),
            ConfigError::UnknownMetric { value } => quoted(
                "unknown metric '",
                value.as_str(),
                "'; expected l2, inner_product, or cosine",
            ),
            ConfigError::NotANumber { option } => quoted(
                "option '",
                option.as_str(),
                "' must be a positive integer",
            ),
            ConfigError::NotABool { option } => quoted(
                "option '",
                option.as_str(),
                "' must be true or false",
            ),
            ConfigError::UnknownOptions { keys } => {
                let list = join(keys);
                String::from_str("unknown vector index option(s): ").concat(list.as_str())
            },
            ConfigError::Invalid { error } => error.message(),
        }
    }
}

/// Keys and values as sequences of characters.
pub open spec fn entries(options: Seq<(String, String)>) -> Seq<(Seq<char>, Seq<char>)> {
    Seq::new(options.len(), |i: int| (options[i].0@, options[i].1@))
}

/// The value that stands with a key.
pub open spec fn lookup(options: Seq<(Seq<char>, Seq<char>)>, key: Seq<char>) -> Option<Seq<char>>
    decreases options.len(),
{
    if options.len() == 0 {
        None
    } else if options.last().0 == key {
        Some(options.last().1)
    } else {
        lookup(options.drop_last(), key)
    }
}

/// The first options with their keys trimmed, if no key is empty and none comes twice.
pub open spec fn cleaned_upto(options: Seq<(Seq<char>, Seq<char>)>, upto: int) -> Result<
    Seq<(Seq<char>, Seq<char>)>,
    Fault,
>
    decreases upto,
{
    if upto <= 0 {
        Ok(Seq::empty())
    } else {
        match cleaned_upto(options, upto - 1) {
            Err(e) => Err(e),
            Ok(list) => {
                let key = text::trimmed(options[upto - 1].0);
                if key.len() == 0 {
                    Err(Fault::EmptyKey)
                } else if lookup(list, key) is Some {
                    Err(Fault::DuplicateKey { key })
                } else {
                    Ok(list.push((key, options[upto - 1].1)))
                }
            },
        }
    }
}

pub open spec fn cleaned(options: Seq<(Seq<char>, Seq<char>)>) -> Result<
    Seq<(Seq<char>, Seq<char>)>,
    Fault,
> {
    cleaned_upto(options, options.len() as int)
}

/// A value that is at least there.
pub open spec fn required(list: Seq<(Seq<char>, Seq<char>)>, option: OptionName) -> Result<
    Seq<char>,
    Fault,
> {
    match lookup(list, option.spec_name()) {
        Some(value) => Ok(value),
        None => Err(Fault::Missing { option }),
    }
}

pub open spec fn parsed_number(value: Seq<char>, option: OptionName) -> Result<usize, Fault> {
    match text::parsed_usize(text::trimmed(value)) {
        Some(number) => Ok(number),
        None => Err(Fault::NotANumber { option }),
    }
}

/// A number, or the one that is taken where none is given.
pub open spec fn optional_number(
    list: Seq<(Seq<char>, Seq<char>)>,
    option: OptionName,
    default: usize,
) -> Result<usize, Fault> {
    match lookup(list, option.spec_name()) {
        Some(value) => parsed_number(value, option),
        None => Ok(default),
    }
}

pub open spec fn parsed_bool(value: Seq<char>, option: OptionName) -> Result<bool, Fault> {
    if text::trimmed(value) == "true"@ {
        Ok(true)
    } else if text::trimmed(value) == "false"@ {
        Ok(false)
    } else {
        Err(Fault::NotABool { option })
    }
}

/// The kinds of index that can be configured.
pub open spec fn is_configurable(index_type: IndexType) -> bool {
    index_type is IvfFlat || index_type is IvfPq || index_type is IvfHnswFlat
        || index_type is IvfHnswSq
}

/// The kind of index with this name, of those that can be configured.
pub open spec fn parsed_index_type(value: Seq<char>) -> Result<IndexType, Fault> {
    let name = text::trimmed(value);
    if name == IndexType::IvfFlat.spec_name() {
        Ok(IndexType::IvfFlat)
    } else if name == IndexType::IvfPq.spec_name() {
        Ok(IndexType::IvfPq)
    } else if name == IndexType::IvfHnswFlat.spec_name() {
        Ok(IndexType::IvfHnswFlat)
    } else if name == IndexType::IvfHnswSq.spec_name() {
        Ok(IndexType::IvfHnswSq)
    } else {
        Err(Fault::UnknownIndexType { value })
    }
}

pub open spec fn parsed_metric(value: Seq<char>) -> Result<MetricType, Fault> {
    let name = text::trimmed(value);
    if name == MetricType::L2.spec_name() {
        Ok(MetricType::L2)
    } else if name == MetricType::InnerProduct.spec_name() {
        Ok(MetricType::InnerProduct)
    } else if name == MetricType::Cosine.spec_name() {
        Ok(MetricType::Cosine)
    } else {
        Err(Fault::UnknownMetric { value })
    }
}

pub open spec fn metric_of(list: Seq<(Seq<char>, Seq<char>)>) -> Result<MetricType, Fault> {
    match lookup(list, OptionName::Metric.spec_name()) {
        Some(value) => parsed_metric(value),
        None => Ok(MetricType::L2),
    }
}

pub open spec fn hnsw_of(list: Seq<(Seq<char>, Seq<char>)>) -> Result<HnswBuildParams, Fault> {
    match optional_number(list, OptionName::HnswM, 20) {
        Err(e) => Err(e),
        Ok(m) => match optional_number(list, OptionName::HnswEfConstruction, 150) {
            Err(e) => Err(e),
            Ok(ef_construction) => match optional_number(list, OptionName::HnswMaxLevel, 7) {
                Err(e) => Err(e),
                Ok(max_level) => Ok(HnswBuildParams { m, ef_construction, max_level }),
            },
        },
    }
}

/// The settings of product quantization: the number of parts, and whether the vectors are rotated.
pub open spec fn pq_of(list: Seq<(Seq<char>, Seq<char>)>) -> Result<(usize, bool), Fault> {
    match required(list, OptionName::PqM) {
        Err(e) => Err(e),
        Ok(value) => match parsed_number(value, OptionName::PqM) {
            Err(e) => Err(e),
            Ok(m) => match lookup(list, OptionName::UseOpq.spec_name()) {
                None => Ok((m, false)),
                Some(flag) => match parsed_bool(flag, OptionName::UseOpq) {
                    Err(e) => Err(e),
                    Ok(use_opq) => Ok((m, use_opq)),
                },
            },
        },
    }
}

/// What every kind of index has: the kind, the dimension, the number of lists and the metric. That
/// the two sizes are there is asked before the metric is read, and what they are after it.
pub open spec fn shape_of(list: Seq<(Seq<char>, Seq<char>)>) -> Result<
    (IndexType, usize, usize, MetricType),
    Fault,
> {
    match required(list, OptionName::IndexType) {
        Err(e) => Err(e),
        Ok(kind) => match parsed_index_type(kind) {
            Err(e) => Err(e),
            Ok(index_type) => match required(list, OptionName::Dimension) {
                Err(e) => Err(e),
                Ok(d) => match required(list, OptionName::Nlist) {
                    Err(e) => Err(e),
                    Ok(n) => match metric_of(list) {
                        Err(e) => Err(e),
                        Ok(metric) => match parsed_number(d, OptionName::Dimension) {
                            Err(e) => Err(e),
                            Ok(dimension) => match parsed_number(n, OptionName::Nlist) {
                                Err(e) => Err(e),
                                Ok(nlist) => Ok((index_type, dimension, nlist, metric)),
                            },
                        },
                    },
                },
            },
        },
    }
}

/// The configuration that the options spell out, before anything is asked of its values or of the
/// options that it does not know.
pub open spec fn spelled(list: Seq<(Seq<char>, Seq<char>)>) -> Result<VectorIndexConfig, Fault> {
    match shape_of(list) {
        Err(e) => Err(e),
        Ok((index_type, dimension, nlist, metric)) => match index_type {
            IndexType::IvfPq => match pq_of(list) {
                Err(e) => Err(e),
                Ok((m, use_opq)) => Ok(
                    VectorIndexConfig::IvfPq { dimension, nlist, m, metric, use_opq },
                ),
            },
            IndexType::IvfHnswFlat => match hnsw_of(list) {
                Err(e) => Err(e),
                Ok(hnsw) => Ok(VectorIndexConfig::IvfHnswFlat { dimension, nlist, metric, hnsw }),
            },
            IndexType::IvfHnswSq => match hnsw_of(list) {
                Err(e) => Err(e),
                Ok(hnsw) => Ok(VectorIndexConfig::IvfHnswSq { dimension, nlist, metric, hnsw }),
            },
            _ => Ok(VectorIndexConfig::IvfFlat { dimension, nlist, metric }),
        },
    }
}

/// The key is an option of this kind of index.
pub open spec fn is_known(index_type: IndexType, key: Seq<char>) -> bool {
    ||| key == OptionName::IndexType.spec_name()
    ||| key == OptionName::Dimension.spec_name()
    ||| key == OptionName::Nlist.spec_name()
    ||| key == OptionName::Metric.spec_name()
    ||| index_type == IndexType::IvfPq && (key == OptionName::PqM.spec_name() || key
        == OptionName::UseOpq.spec_name())
    ||| (index_type == IndexType::IvfHnswFlat || index_type == IndexType::IvfHnswSq) && (key
        == OptionName::HnswM.spec_name() || key == OptionName::HnswEfConstruction.spec_name() || key
        == OptionName::HnswMaxLevel.spec_name())
}

/// These are the keys that the kind of index does not know, in order.
pub open spec fn are_unknown(
    keys: Seq<Seq<char>>,
    list: Seq<(Seq<char>, Seq<char>)>,
    index_type: IndexType,
) -> bool {
    &&& forall|i: int, j: int|
        0 <= i < j < keys.len() ==> text::comes_before(#[trigger] keys[i], #[trigger] keys[j])
    &&& forall|k: int|
        0 <= k < list.len() && !is_known(index_type, #[trigger] list[k].0) ==> keys.contains(
            list[k].0,
        )
    &&& forall|i: int|
        0 <= i < keys.len() ==> !is_known(index_type, #[trigger] keys[i]) && lookup(
            list,
            keys[i],
        ) is Some
}

proof fn lemma_lookup_found(list: Seq<(Seq<char>, Seq<char>)>, at: int)
    requires
        0 <= at < list.len(),
    ensures
        lookup(list, list[at].0) is Some,
    decreases list.len(),
{
    if at < list.len() - 1 && list.last().0 != list[at].0 {
        lemma_lookup_found(list.drop_last(), at);
    }
}

/// The value that stands with a key.
fn find<'a>(list: &'a Vec<(String, String)>, key: &str) -> (r: Option<&'a String>)
    ensures
        match r {
            Some(value) => lookup(entries(list@), key@) == Some(value@),
            None => lookup(entries(list@), key@) is None,
        },
{
    let mut i: usize = list.len();
    assert(entries(list@).subrange(0, i as int) =~= entries(list@));
    while i > 0
        invariant
            i <= list@.len(),
            lookup(entries(list@), key@) == lookup(entries(list@).subrange(0, i as int), key@),
        decreases i,
    {
        proof {
            let t = entries(list@).subrange(0, i as int);
            assert(t.last() == (list@[i - 1].0@, list@[i - 1].1@));
            assert(t.drop_last() =~= entries(list@).subrange(0, i - 1));
        }
        if text::same(list[i - 1].0.as_str(), key) {
            return Some(&list[i - 1].1);
        }
        i = i - 1;
    }
    None
}

/// Trims the keys of the options.
pub fn clean_options(options: &Vec<(String, String)>) -> (r: Result<
    Vec<(String, String)>,
    ConfigError,
>)
    ensures
        match r {
            Ok(list) => cleaned(entries(options@)) == Ok::<_, Fault>(entries(list@)),
            Err(e) => cleaned(entries(options@)) == Err::<Seq<(Seq<char>, Seq<char>)>, Fault>(e@)
                && (e is EmptyKey || e is DuplicateKey),
        },
{
    let mut list: Vec<(String, String)> = Vec::new();
    assert(entries(list@) =~= Seq::empty());
    for i in 0..options.len()
        invariant
            cleaned_upto(entries(options@), i as int) == Ok::<_, Fault>(entries(list@)),
    {
        let key: &str = text::trim(options[i].0.as_str());
        proof {
            assert(entries(options@)[i as int] == (options@[i as int].0@, options@[i as int].1@));
        }
        if key.unicode_len() == 0 {
            proof {
                lemma_cleaned_stays(entries(options@), i + 1);
            }
            return Err(ConfigError::EmptyKey);
        }
        if find(&list, key).is_some() {
            proof {
                lemma_cleaned_stays(entries(options@), i + 1);
            }
            return Err(ConfigError::DuplicateKey { key: String::from_str(key) });
        }
        let ghost before = entries(list@);
        let value = options[i].1.clone();
        list.push((String::from_str(key), value));
        assert(entries(list@) =~= before.push((key@, options@[i as int].1@)));
    }
    Ok(list)
}

/// What is wrong with the first options is wrong with all.
proof fn lemma_cleaned_stays(options: Seq<(Seq<char>, Seq<char>)>, upto: int)
    requires
        0 <= upto <= options.len(),
        cleaned_upto(options, upto) is Err,
    ensures
        cleaned(options) == cleaned_upto(options, upto),
    decreases options.len() - upto,
{
    if upto < options.len() {
        lemma_cleaned_stays(options, upto + 1);
    }
}

/// The name of every kind that can be configured leads back to that kind, and nothing else does but
/// the name with white space around it; any other text is invalid input.
pub proof fn index_type_names_parse_back(index_type: IndexType, value: Seq<char>)
    requires
        is_configurable(index_type),
    ensures
        parsed_index_type(index_type.spec_name()) == Ok::<IndexType, Fault>(index_type),
        parsed_index_type(value) == Ok::<IndexType, Fault>(index_type) <==> text::trimmed(value)
            == index_type.spec_name(),
        match parsed_index_type(value) {
            Ok(found) => is_configurable(found),
            Err(e) => e == (Fault::UnknownIndexType { value }) && e.kind()
                == ErrorKind::InvalidInput,
        },
{
    reveal_strlit("ivf_flat");
    reveal_strlit("ivf_pq");
    reveal_strlit("ivf_hnsw_flat");
    reveal_strlit("ivf_hnsw_sq");
    assert("ivf_flat"@.len() == 8);
    assert("ivf_pq"@.len() == 6);
    assert("ivf_hnsw_flat"@.len() == 13);
    assert("ivf_hnsw_sq"@.len() == 11);
    let name = index_type.spec_name();
    assert(text::trimmed(name) == name);
}

/// The name of every metric leads back to that metric, and nothing else does but the name with white
/// space around it; any other text is invalid input.
pub proof fn metric_names_parse_back(metric: MetricType, value: Seq<char>)
    ensures
        parsed_metric(metric.spec_name()) == Ok::<MetricType, Fault>(metric),
        parsed_metric(value) == Ok::<MetricType, Fault>(metric) <==> text::trimmed(value)
            == metric.spec_name(),
        parsed_metric(value) matches Err(e) ==> e == (Fault::UnknownMetric { value }) && e.kind()
            == ErrorKind::InvalidInput,
{
    reveal_strlit("l2");
    reveal_strlit("inner_product");
    reveal_strlit("cosine");
    assert("l2"@.len() == 2);
    assert("inner_product"@.len() == 13);
    assert("cosine"@.len() == 6);
    let name = metric.spec_name();
    assert(text::trimmed(name) == name);
}

/// The kind of index with this name, white space around it left aside.
pub fn parse_index_type_option(value: &str) -> (r: Result<IndexType, ConfigError>)
    ensures
        match r {
            Ok(v) => parsed_index_type(value@) == Ok::<_, Fault>(v),
            Err(e) => parsed_index_type(value@) == Err::<IndexType, Fault>(e@),
        },
{
    let name: &str = text::trim(value);
    if text::same(name, "ivf_flat") {
        Ok(IndexType::IvfFlat)
    } else if text::same(name, "ivf_pq") {
        Ok(IndexType::IvfPq)
    } else if text::same(name, "ivf_hnsw_flat") {
        Ok(IndexType::IvfHnswFlat)
    } else if text::same(name, "ivf_hnsw_sq") {
        Ok(IndexType::IvfHnswSq)
    } else {
        Err(ConfigError::UnknownIndexType { value: String::from_str(value) })
    }
}

/// The metric with this name, white space around it left aside.
pub fn parse_metric_option(value: &str) -> (r: Result<MetricType, ConfigError>)
    ensures
        match r {
            Ok(v) => parsed_metric(value@) == Ok::<_, Fault>(v),
            Err(e) => parsed_metric(value@) == Err::<MetricType, Fault>(e@),
        },
{
    let name: &str = text::trim(value);
    if text::same(name, "l2") {
        Ok(MetricType::L2)
    } else if text::same(name, "inner_product") {
        Ok(MetricType::InnerProduct)
    } else if text::same(name, "cosine") {
        Ok(MetricType::Cosine)
    } else {
        Err(ConfigError::UnknownMetric { value: String::from_str(value) })
    }
}

fn parse_usize_option(option: OptionName, value: &str) -> (r: Result<usize, ConfigError>)
    ensures
        match r {
            Ok(v) => parsed_number(value@, option) == Ok::<_, Fault>(v),
            Err(e) => parsed_number(value@, option) == Err::<usize, Fault>(e@),
        },
{
    match text::parse_usize(text::trim(value)) {
        Some(number) => Ok(number),
        None => Err(ConfigError::NotANumber { option }),
    }
}

fn parse_bool_option(option: OptionName, value: &str) -> (r: Result<bool, ConfigError>)
    ensures
        match r {
            Ok(v) => parsed_bool(value@, option) == Ok::<_, Fault>(v),
            Err(e) => parsed_bool(value@, option) == Err::<bool, Fault>(e@),
        },
{
    let flag: &str = text::trim(value);
    if text::same(flag, "true") {
        Ok(true)
    } else if text::same(flag, "false") {
        Ok(false)
    } else {
        Err(ConfigError::NotABool { option })
    }
}

fn find_required<'a>(list: &'a Vec<(String, String)>, option: OptionName) -> (r: Result<
    &'a String,
    ConfigError,
>)
    ensures
        match r {
            Ok(v) => required(entries(list@), option) == Ok::<_, Fault>(v@),
            Err(e) => required(entries(list@), option) == Err::<Seq<char>, Fault>(e@),
        },
{
    match find(list, option.as_str()) {
        Some(value) => Ok(value),
        None => Err(ConfigError::Missing { option }),
    }
}

fn find_number(list: &Vec<(String, String)>, option: OptionName, default: usize) -> (r: Result<
    usize,
    ConfigError,
>)
    ensures
        match r {
            Ok(v) => optional_number(entries(list@), option, default) == Ok::<_, Fault>(v),
            Err(e) => optional_number(entries(list@), option, default) == Err::<usize, Fault>(e@),
        },
{
    match find(list, option.as_str()) {
        Some(value) => parse_usize_option(option, value.as_str()),
        None => Ok(default),
    }
}

fn parse_hnsw_options(list: &Vec<(String, String)>) -> (r: Result<HnswBuildParams, ConfigError>)
    ensures
        match r {
            Ok(v) => hnsw_of(entries(list@)) == Ok::<_, Fault>(v),
            Err(e) => hnsw_of(entries(list@)) == Err::<HnswBuildParams, Fault>(e@),
        },
{
    let defaults = HnswBuildParams::default();
    let m: usize = find_number(list, OptionName::HnswM, defaults.m)?;
    let ef_construction: usize = find_number(
        list,
        OptionName::HnswEfConstruction,
        defaults.ef_construction,
    )?;
    let max_level: usize = find_number(list, OptionName::HnswMaxLevel, defaults.max_level)?;
    Ok(HnswBuildParams { m, ef_construction, max_level })
}

fn parse_pq_options(list: &Vec<(String, String)>) -> (r: Result<(usize, bool), ConfigError>)
    ensures
        match r {
            Ok(v) => pq_of(entries(list@)) == Ok::<_, Fault>(v),
            Err(e) => pq_of(entries(list@)) == Err::<(usize, bool), Fault>(e@),
        },
{
    let parts = find_required(list, OptionName::PqM)?;
    let m: usize = parse_usize_option(OptionName::PqM, parts.as_str())?;
    let use_opq: bool = match find(list, OptionName::UseOpq.as_str()) {
        Some(flag) => parse_bool_option(OptionName::UseOpq, flag.as_str())?,
        None => false,
    };
    Ok((m, use_opq))
}

fn parse_shape(list: &Vec<(String, String)>) -> (r: Result<
    (IndexType, usize, usize, MetricType),
    ConfigError,
>)
    ensures
        match r {
            Ok(v) => shape_of(entries(list@)) == Ok::<_, Fault>(v),
            Err(e) => shape_of(entries(list@)) == Err::<
                (IndexType, usize, usize, MetricType),
                Fault,
            >(e@),
        },
{
    let kind = find_required(list, OptionName::IndexType)?;
    let index_type = parse_index_type_option(kind.as_str())?;
    let d = find_required(list, OptionName::Dimension)?;
    let n = find_required(list, OptionName::Nlist)?;
    let metric = match find(list, OptionName::Metric.as_str()) {
        Some(value) => parse_metric_option(value.as_str())?,
        None => MetricType::L2,
    };
    let dimension: usize = parse_usize_option(OptionName::Dimension, d.as_str())?;
    let nlist: usize = parse_usize_option(OptionName::Nlist, n.as_str())?;
    Ok((index_type, dimension, nlist, metric))
}

/// Reads the configuration that the options spell out.
pub fn parse_config(list: &Vec<(String, String)>) -> (r: Result<VectorIndexConfig, ConfigError>)
    ensures
        match r {
            Ok(v) => spelled(entries(list@)) == Ok::<_, Fault>(v),
            Err(e) => spelled(entries(list@)) == Err::<VectorIndexConfig, Fault>(e@),
        },
{
    let (index_type, dimension, nlist, metric) = parse_shape(list)?;
    match index_type {
        IndexType::IvfPq => {
            let (m, use_opq) = parse_pq_options(list)?;
            Ok(VectorIndexConfig::IvfPq { dimension, nlist, m, metric, use_opq })
        },
        IndexType::IvfHnswFlat => {
            let hnsw = parse_hnsw_options(list)?;
            Ok(VectorIndexConfig::IvfHnswFlat { dimension, nlist, metric, hnsw })
        },
        IndexType::IvfHnswSq => {
            let hnsw = parse_hnsw_options(list)?;
            Ok(VectorIndexConfig::IvfHnswSq { dimension, nlist, metric, hnsw })
        },
        _ => Ok(VectorIndexConfig::IvfFlat { dimension, nlist, metric }),
    }
}

fn check_known(index_type: IndexType, key: &str) -> (r: bool)
    ensures
        r == is_known(index_type, key@),
{
    let shared: bool = text::same(key, "index.type") || text::same(key, "dimension") || text::same(
        key,
        "nlist",
    ) || text::same(key, "metric");
    let own: bool = match index_type {
        IndexType::IvfPq => text::same(key, "pq.m") || text::same(key, "use-opq"),
        IndexType::IvfHnswFlat | IndexType::IvfHnswSq => text::same(key, "hnsw.m") || text::same(
            key,
            "hnsw.ef-construction",
        ) || text::same(key, "hnsw.max-level"),
        _ => false,
    };
    shared || own
}

proof fn lemma_order_total(a: Seq<char>, b: Seq<char>)
    ensures
        a != b ==> text::comes_before(a, b) || text::comes_before(b, a),
    decreases a.len(),
{
    if a.len() > 0 && b.len() > 0 && a[0] == b[0] {
        let s = a.subrange(1, a.len() as int);
        let t = b.subrange(1, b.len() as int);
        lemma_order_total(s, t);
        if s == t {
            assert(a =~= seq![a[0]] + s);
            assert(b =~= seq![b[0]] + t);
        }
    } else if a.len() == 0 && b.len() == 0 {
        assert(a =~= b);
    }
}

proof fn lemma_order_transitive(a: Seq<char>, b: Seq<char>, c: Seq<char>)
    requires
        text::comes_before(a, b),
        text::comes_before(b, c),
    ensures
        text::comes_before(a, c),
    decreases a.len(),
{
    if a.len() > 0 && a[0] == b[0] && b[0] == c[0] {
        lemma_order_transitive(
            a.subrange(1, a.len() as int),
            b.subrange(1, b.len() as int),
            c.subrange(1, c.len() as int),
        );
    }
}

/// Each text comes before those that follow it.
pub open spec fn in_order(keys: Seq<Seq<char>>) -> bool {
    forall|i: int, j: int|
        0 <= i < j < keys.len() ==> text::comes_before(#[trigger] keys[i], #[trigger] keys[j])
}

/// Puts a text into its place among others. Nothing happens where it is there already.
fn insert_in_order(keys: &mut Vec<String>, key: &str)
    requires
        in_order(texts(old(keys)@)),
    ensures
        in_order(texts(final(keys)@)),
        forall|t: Seq<char>|
            texts(final(keys)@).contains(t) <==> texts(old(keys)@).contains(t) || t == key@,
{
    let ghost before = texts(keys@);
    let n: usize = keys.len();
    let mut at: usize = 0;
    while at < n && text::less_than(keys[at].as_str(), key)
        invariant
            n == keys@.len(),
            at <= n,
            texts(keys@) == before,
            forall|i: int| 0 <= i < at ==> text::comes_before(#[trigger] before[i], key@),
        decreases n - at,
    {
        at = at + 1;
    }
    if at < n && text::same(keys[at].as_str(), key) {
        assert(before[at as int] == key@);
        return;
    }
    keys.insert(at, String::from_str(key));
    proof {
        let after = texts(keys@);
        assert(after =~= before.insert(at as int, key@));
        if at < n {
            lemma_order_total(before[at as int], key@);
        }
        assert forall|i: int, j: int| 0 <= i < j < after.len() implies text::comes_before(
            #[trigger] after[i],
            #[trigger] after[j],
        ) by {
            if i == at {
                if j > at + 1 {
                    assert(text::comes_before(before[at as int], before[j - 1]));
                    lemma_order_transitive(key@, before[at as int], before[j - 1]);
                }
            }
        }
        assert forall|t: Seq<char>| after.contains(t) <==> before.contains(t) || t == key@ by {
            if before.contains(t) {
                let k = choose|k: int| 0 <= k < before.len() && before[k] == t;
                assert(after[if k < at {
                    k
                } else {
                    k + 1
                }] == t);
            }
            if t == key@ {
                assert(after[at as int] == t);
            }
            if after.contains(t) {
                let k = choose|k: int| 0 <= k < after.len() && after[k] == t;
                if k != at {
                    assert(before[if k < at {
                        k
                    } else {
                        k - 1
                    }] == t);
                }
            }
        }
    }
}

/// The keys that the kind of index does not know, in order.
pub fn unknown_keys(list: &Vec<(String, String)>, index_type: IndexType) -> (r: Vec<String>)
    ensures
        are_unknown(texts(r@), entries(list@), index_type),
        r@.len() == 0 <==> forall|k: int|
            0 <= k < list@.len() ==> is_known(index_type, #[trigger] entries(list@)[k].0),
{
    let mut keys: Vec<String> = Vec::new();
    let ghost all = entries(list@);
    for i in 0..list.len()
        invariant
            all == entries(list@),
            in_order(texts(keys@)),
            forall|k: int|
                0 <= k < i && !is_known(index_type, #[trigger] all[k].0) ==> texts(keys@).contains(
                    all[k].0,
                ),
            forall|t: Seq<char>|
                #[trigger] texts(keys@).contains(t) ==> !is_known(index_type, t) && exists|k: int|
                    0 <= k < i && (#[trigger] all[k]).0 == t,
    {
        let ghost before = texts(keys@);
        assert(all[i as int].0 == list@[i as int].0@);
        if !check_known(index_type, list[i].0.as_str()) {
            insert_in_order(&mut keys, list[i].0.as_str());
            assert forall|t: Seq<char>| #[trigger] texts(keys@).contains(t) implies !is_known(
                index_type,
                t,
            ) && exists|k: int| 0 <= k < i + 1 && (#[trigger] all[k]).0 == t by {
                if before.contains(t) {
                    let k = choose|k: int| 0 <= k < i && (#[trigger] all[k]).0 == t;
                    assert(all[k].0 == t);
                } else {
                    assert(all[i as int].0 == t);
                }
            }
        }
    }
    proof {
        let found = texts(keys@);
        assert forall|i: int| 0 <= i < found.len() implies !is_known(index_type, #[trigger] found[i])
            && lookup(all, found[i]) is Some by {
            assert(found.contains(found[i]));
            let k = choose|k: int| 0 <= k < list@.len() && (#[trigger] all[k]).0 == found[i];
            lemma_lookup_found(all, k);
        }
        if found.len() > 0 {
            assert(found.contains(found[0]));
        }
    }
    keys
}

} // verus!

//! What options say of an index, told by their keys and values.
use vstd::prelude::*;

use crate::config_options;
use crate::distance::MetricType;
use crate::hnsw::HnswBuildParams;
use crate::index::{IndexType, VectorIndexConfig};
use crate::numerals;
use crate::text;

verus! {

/// Every character is white space.
pub open spec fn is_blank(s: Seq<char>) -> bool {
    forall|i: int| 0 <= i < s.len() ==> text::is_white_space(#[trigger] s[i])
}

/// Trimming takes white space off both ends, all of it, and nothing else.
pub proof fn trimming_takes_off_white_space(s: Seq<char>)
    ensures
        exists|from: int, upto: int|
            {
                &&& 0 <= from <= upto <= s.len()
                &&& is_blank(#[trigger] s.subrange(0, from))
                &&& is_blank(#[trigger] s.subrange(upto, s.len() as int))
                &&& text::trimmed(s) == s.subrange(from, upto)
            },
        text::trimmed(s).len() > 0 ==> !text::is_white_space(text::trimmed(s)[0])
            && !text::is_white_space(text::trimmed(s).last()),
    decreases s.len(),
{
    let n = s.len() as int;
    if n == 0 {
        assert(s.subrange(0, 0) =~= s);
        assert(is_blank(s.subrange(0, 0)) && is_blank(s.subrange(0, n)));
    } else if text::is_white_space(s[0]) {
        let rest = s.subrange(1, n);
        trimming_takes_off_white_space(rest);
        let (from, upto) = choose|from: int, upto: int|
            {
                &&& 0 <= from <= upto <= rest.len()
                &&& is_blank(#[trigger] rest.subrange(0, from))
                &&& is_blank(#[trigger] rest.subrange(upto, rest.len() as int))
                &&& text::trimmed(rest) == rest.subrange(from, upto)
            };
        let first = s.subrange(0, from + 1);
        assert forall|i: int| 0 <= i < first.len() implies text::is_white_space(
            #[trigger] first[i],
        ) by {
            if i > 0 {
                assert(first[i] == rest.subrange(0, from)[i - 1]);
            }
        }
        assert(s.subrange(upto + 1, n) =~= rest.subrange(upto, rest.len() as int));
        assert(s.subrange(from + 1, upto + 1) =~= rest.subrange(from, upto));
        assert(is_blank(s.subrange(0, from + 1)) && is_blank(s.subrange(upto + 1, n)));
    } else if text::is_white_space(s.last()) {
        let rest = s.subrange(0, n - 1);
        trimming_takes_off_white_space(rest);
        let (from, upto) = choose|from: int, upto: int|
            {
                &&& 0 <= from <= upto <= rest.len()
                &&& is_blank(#[trigger] rest.subrange(0, from))
                &&& is_blank(#[trigger] rest.subrange(upto, rest.len() as int))
                &&& text::trimmed(rest) == rest.subrange(from, upto)
            };
        let last = s.subrange(upto, n);
        assert forall|i: int| 0 <= i < last.len() implies text::is_white_space(#[trigger] last[i]) by {
            if i < last.len() - 1 {
                assert(last[i] == rest.subrange(upto, rest.len() as int)[i]);
            }
        }
        assert(s.subrange(0, from) =~= rest.subrange(0, from));
        assert(s.subrange(from, upto) =~= rest.subrange(from, upto));
        assert(is_blank(s.subrange(0, from)) && is_blank(s.subrange(upto, n)));
    } else {
        assert(s.subrange(0, n) =~= s);
        assert(is_blank(s.subrange(0, 0)) && is_blank(s.subrange(n, n)));
    }
}

/// A number that is written out reads back.
pub proof fn written_numbers_read_back(n: usize)
    ensures
        text::parsed_usize(numerals::decimal(n as nat)) == Some(n),
{
    lemma_decimal(n as nat);
    let s = numerals::decimal(n as nat);
    assert(text::is_digit(s[0]));
}

proof fn lemma_decimal(n: nat)
    ensures
        numerals::decimal(n).len() > 0,
        text::all_digits(numerals::decimal(n)),
        text::number_of(numerals::decimal(n)) == n,
    decreases n,
{
    let s = numerals::decimal(n);
    if n < 10 {
        assert(s.drop_last() =~= Seq::<char>::empty());
        reveal_with_fuel(text::number_of, 2);
        assert(s.last() == numerals::digit(n as int));
    } else {
        lemma_decimal(n / 10);
        let front = numerals::decimal(n / 10);
        assert(s.drop_last() =~= front);
        assert(s.last() == numerals::digit(n as int % 10));
        assert forall|i: int| 0 <= i < s.len() implies text::is_digit(#[trigger] s[i]) by {
            if i < front.len() {
                assert(s[i] == front[i]);
            }
        }
    }
}

/// A longer row of digits stands for ten times as much and the last digit.
pub proof fn digits_count_tens(digits: Seq<char>, c: char)
    requires
        text::is_digit(c),
    ensures
        text::number_of(digits.push(c)) == 10 * text::number_of(digits) + (c as nat - '0' as nat),
{
    assert(digits.push(c).drop_last() =~= digits);
}

/// The value under a key is that of the last entry with this key; without one there is none.
pub proof fn values_are_found_under_their_keys(
    list: Seq<(Seq<char>, Seq<char>)>,
    key: Seq<char>,
)
    ensures
        match config_options::lookup(list, key) {
            Some(value) => exists|i: int|
                0 <= i < list.len() && #[trigger] list[i] == (key, value) && forall|j: int|
                    i < j < list.len() ==> (#[trigger] list[j]).0 != key,
            None => forall|i: int| 0 <= i < list.len() ==> (#[trigger] list[i]).0 != key,
        },
    decreases list.len(),
{
    if list.len() > 0 {
        let front = list.drop_last();
        let last = list.len() - 1;
        if list[last].0 == key {
            assert(list[last] == (key, list[last].1));
        } else {
            values_are_found_under_their_keys(front, key);
            match config_options::lookup(front, key) {
                Some(value) => {
                    let i = choose|i: int|
                        0 <= i < front.len() && #[trigger] front[i] == (key, value) && forall|j: int|
                            i < j < front.len() ==> (#[trigger] front[j]).0 != key;
                    assert(list[i] == (key, value));
                    assert forall|j: int| i < j < list.len() implies (#[trigger] list[j]).0 != key by {
                        if j < last {
                            assert(list[j] == front[j]);
                        }
                    }
                },
                None => {
                    assert forall|i: int| 0 <= i < list.len() implies (#[trigger] list[i]).0
                        != key by {
                        if i < last {
                            assert(list[i] == front[i]);
                        }
                    }
                },
            }
        }
    }
}

/// Options are cleaned: each keeps its place and its value, and its key is trimmed. They are
/// accepted where no key is empty and none is there twice, and only there.
pub proof fn cleaned_options_are_the_options(options: Seq<(Seq<char>, Seq<char>)>, upto: int)
    requires
        0 <= upto <= options.len(),
    ensures
        ({
            let good = (forall|i: int|
                0 <= i < upto ==> text::trimmed((#[trigger] options[i]).0).len() > 0) && (forall|
                i: int,
                j: int,
            |
                0 <= i < j < upto ==> text::trimmed((#[trigger] options[i]).0) != text::trimmed(
                    (#[trigger] options[j]).0,
                ));
            match config_options::cleaned_upto(options, upto) {
                Ok(list) => good && list.len() == upto && forall|i: int|
                    0 <= i < upto ==> #[trigger] list[i] == (
                        text::trimmed(options[i].0),
                        options[i].1,
                    ),
                Err(_) => !good,
            }
        }),
    decreases upto,
{
    if upto > 0 {
        cleaned_options_are_the_options(options, upto - 1);
        let last = upto - 1;
        let key = text::trimmed(options[last].0);
        match config_options::cleaned_upto(options, upto - 1) {
            Ok(list) => {
                values_are_found_under_their_keys(list, key);
                if key.len() > 0 && config_options::lookup(list, key) is Some {
                    let value = config_options::lookup(list, key)->0;
                    let i = choose|i: int|
                        0 <= i < list.len() && #[trigger] list[i] == (key, value) && forall|j: int|
                            i < j < list.len() ==> (#[trigger] list[j]).0 != key;
                    assert(text::trimmed(options[i].0) == key);
                    assert(text::trimmed(options[i].0) == text::trimmed(options[last].0));
                } else if key.len() > 0 {
                    let more = list.push((key, options[last].1));
                    assert forall|i: int| 0 <= i < upto implies #[trigger] more[i] == (
                        text::trimmed(options[i].0),
                        options[i].1,
                    ) by {
                        if i < last {
                            assert(more[i] == list[i]);
                        }
                    }
                    assert forall|i: int, j: int| 0 <= i < j < upto implies text::trimmed(
                        (#[trigger] options[i]).0,
                    ) != text::trimmed((#[trigger] options[j]).0) by {
                        if j == last {
                            assert(list[i].0 != key);
                        }
                    }
                }
            },
            Err(_) => {},
        }
    }
}

/// The number under a key, or what is usual without one.
pub open spec fn says_number(
    list: Seq<(Seq<char>, Seq<char>)>,
    key: Seq<char>,
    usual: Option<usize>,
    number: usize,
) -> bool {
    match config_options::lookup(list, key) {
        Some(value) => text::parsed_usize(text::trimmed(value)) == Some(number),
        None => usual == Some(number),
    }
}

/// The metric under its key, or the squared distance without one.
pub open spec fn says_metric(list: Seq<(Seq<char>, Seq<char>)>, metric: MetricType) -> bool {
    match config_options::lookup(list, "metric"@) {
        Some(value) => text::trimmed(value) == (match metric {
            MetricType::L2 => "l2"@,
            MetricType::InnerProduct => "inner_product"@,
            MetricType::Cosine => "cosine"@,
        }),
        None => metric == MetricType::L2,
    }
}

/// How graphs are built, by the keys for it or as is usual.
pub open spec fn says_graph(list: Seq<(Seq<char>, Seq<char>)>, hnsw: HnswBuildParams) -> bool {
    &&& says_number(list, "hnsw.m"@, Some(20), hnsw.m)
    &&& says_number(list, "hnsw.ef-construction"@, Some(150), hnsw.ef_construction)
    &&& says_number(list, "hnsw.max-level"@, Some(7), hnsw.max_level)
}

/// The type of index under its key.
pub open spec fn says_type(list: Seq<(Seq<char>, Seq<char>)>, name: Seq<char>) -> bool {
    config_options::lookup(list, "index.type"@) matches Some(value) && text::trimmed(value) == name
}

/// A configuration says what the options say: its type, its dimension and its lists, which have to
/// be there, and its metric and the settings of its type, which may be.
pub proof fn configurations_say_what_the_options_say(
    list: Seq<(Seq<char>, Seq<char>)>,
    config: VectorIndexConfig,
)
    requires
        config_options::spelled(list) == Ok::<VectorIndexConfig, config_options::Fault>(config),
    ensures
        match config {
            VectorIndexConfig::IvfFlat { dimension, nlist, metric } => {
                &&& says_type(list, "ivf_flat"@)
                &&& says_number(list, "dimension"@, None, dimension)
                &&& says_number(list, "nlist"@, None, nlist)
                &&& says_metric(list, metric)
            },
            VectorIndexConfig::IvfPq { dimension, nlist, m, metric, use_opq } => {
                &&& says_type(list, "ivf_pq"@)
                &&& says_number(list, "dimension"@, None, dimension)
                &&& says_number(list, "nlist"@, None, nlist)
                &&& says_number(list, "pq.m"@, None, m)
                &&& says_metric(list, metric)
                &&& match config_options::lookup(list, "use-opq"@) {
                    Some(value) => text::trimmed(value) == (if use_opq {
                        "true"@
                    } else {
                        "false"@
                    }),
                    None => !use_opq,
                }
            },
            VectorIndexConfig::IvfHnswFlat { dimension, nlist, metric, hnsw } => {
                &&& says_type(list, "ivf_hnsw_flat"@)
                &&& says_number(list, "dimension"@, None, dimension)
                &&& says_number(list, "nlist"@, None, nlist)
                &&& says_metric(list, metric)
                &&& says_graph(list, hnsw)
            },
            VectorIndexConfig::IvfHnswSq { dimension, nlist, metric, hnsw } => {
                &&& says_type(list, "ivf_hnsw_sq"@)
                &&& says_number(list, "dimension"@, None, dimension)
                &&& says_number(list, "nlist"@, None, nlist)
                &&& says_metric(list, metric)
                &&& says_graph(list, hnsw)
            },
        },
{
}

/// A configuration is accepted where its sizes are not zero and, for product quantization, the
/// dimension can be cut into as many parts as are asked for.
pub proof fn sizes_of_configurations_are_checked(config: VectorIndexConfig)
    ensures
        config.fault() is None <==> {
            &&& config.spec_dimension() > 0
            &&& config.spec_nlist() > 0
            &&& match config {
                VectorIndexConfig::IvfFlat { .. } => true,
                VectorIndexConfig::IvfPq { dimension, m, .. } => m > 0 && dimension as int
                    % m as int == 0,
                VectorIndexConfig::IvfHnswFlat { hnsw, .. } => hnsw.m > 0 && hnsw.ef_construction
                    > 0 && hnsw.max_level > 0,
                VectorIndexConfig::IvfHnswSq { hnsw, .. } => hnsw.m > 0 && hnsw.ef_construction > 0
                    && hnsw.max_level > 0,
            }
        },
{
}

/// Of two different texts one comes before the other, and not the other way round; none comes
/// before itself.
pub proof fn texts_are_ordered(a: Seq<char>, b: Seq<char>)
    ensures
        !(text::comes_before(a, b) && text::comes_before(b, a)),
        a == b ==> !text::comes_before(a, b),
        a != b ==> text::comes_before(a, b) || text::comes_before(b, a),
    decreases a.len(),
{
    if a.len() > 0 && b.len() > 0 && a[0] == b[0] {
        let x = a.subrange(1, a.len() as int);
        let y = b.subrange(1, b.len() as int);
        texts_are_ordered(x, y);
        if x == y {
            assert(a =~= b) by {
                assert(a.len() == x.len() + 1 && b.len() == y.len() + 1);
                assert forall|i: int| 0 <= i < a.len() implies a[i] == b[i] by {
                    if i > 0 {
                        assert(x[i - 1] == a[i] && y[i - 1] == b[i]);
                    }
                }
            }
        }
    } else if a.len() == 0 && b.len() == 0 {
        assert(a =~= b);
    }
}

} // verus!

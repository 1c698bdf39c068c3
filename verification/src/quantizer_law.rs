//! What quantizers do, told by the chunks of a vector and their centroids.
use vstd::arithmetic::power2::pow2;
use vstd::prelude::*;

use crate::centroid_law;
use crate::cluster_assign;
use crate::clustering_law;
use crate::error::IndexError;
use crate::float_bits;
use crate::float_law;
use crate::ivf_lists;
use crate::kmeans::KMeansConfig;
use crate::pq;
use crate::pq::ProductQuantizer;
use crate::pq_scan;
use crate::pq_table;
use crate::sq;
use crate::sq::SqBounds;
use crate::training;
use crate::vector_math::Arithmetic;

verus! {

/// The code of each chunk is read where it was written: with eight bits it is a byte, with four
/// bits each byte is the code of a chunk and sixteen times that of the next.
pub proof fn bytes_hold_their_codes(codes: Seq<u8>, nbits: usize, byte: int)
    requires
        0 <= byte < codes.len(),
    ensures
        nbits == 4 ==> {
            let low = pq::code_at(codes, nbits, 2 * byte);
            let high = pq::code_at(codes, nbits, 2 * byte + 1);
            &&& 0 <= low < 16
            &&& 0 <= high < 16
            &&& codes[byte] == low + 16 * high
        },
        nbits == 8 ==> pq::code_at(codes, nbits, byte) == codes[byte],
{
}

/// The values of the centroids of a chunk against the same chunk of a vector.
pub open spec fn values_of_chunk<F: Fn(&Vec<u32>, &Vec<u32>, usize) -> Vec<u32>>(
    quantizer: ProductQuantizer,
    f: F,
    x: Seq<u32>,
    sub: int,
) -> Seq<u32> {
    let from = quantizer.chunk_offsets@[sub] as int;
    let upto = quantizer.chunk_offsets@[sub + 1] as int;
    pq_table::values_of(
        f,
        x.subrange(from, upto),
        quantizer.centroids@.subrange(from * quantizer.ksub, upto * quantizer.ksub),
        quantizer.ksub,
    )
}

/// Every chunk of a vector is coded by the number of its nearest centroid, and the code has half a
/// byte or a byte for each chunk.
pub proof fn every_chunk_is_coded_by_its_nearest<
    F: Fn(&Vec<u32>, &Vec<u32>, usize) -> Vec<u32>,
>(quantizer: ProductQuantizer, f: F, x: Seq<u32>, code: Seq<u8>, sub: int)
    requires
        quantizer.has_plan(),
        quantizer.is_code(f, x, code),
        0 <= sub < quantizer.m,
    ensures
        quantizer.nbits == 8 ==> code.len() == quantizer.m,
        quantizer.nbits == 4 ==> 2 * code.len() == quantizer.m || 2 * code.len() == quantizer.m + 1,
        clustering_law::names_least(
            values_of_chunk(quantizer, f, x, sub),
            if quantizer.nbits == 8 {
                code[sub] as int
            } else if sub % 2 == 0 {
                code[sub / 2] as int % 16
            } else {
                code[sub / 2] as int / 16
            },
        ),
{
    assert(quantizer.chunk_values(f, x, sub) == values_of_chunk(quantizer, f, x, sub));
    clustering_law::nearest_is_least(
        quantizer.chunk_values(f, x, sub),
        pq::code_at(code, quantizer.nbits, sub),
    );
}

/// The centroids of a chunk stand one behind the other, and behind them those of the next chunk:
/// each has its own place, and all places are taken.
pub proof fn centroids_have_their_own_places(quantizer: ProductQuantizer, sub: int, code: int)
    requires
        quantizer.well_formed(),
        quantizer.is_trained(),
        0 <= sub < quantizer.m,
        0 <= code < quantizer.ksub,
    ensures
        ({
            let from = quantizer.chunk_offsets@[sub] as int;
            let upto = quantizer.chunk_offsets@[sub + 1] as int;
            let chunk = quantizer.centroids@.subrange(from * quantizer.ksub, upto * quantizer.ksub);
            let width = upto - from;
            &&& chunk.len() == width * quantizer.ksub
            &&& 0 <= code * width
            &&& code * width + width <= chunk.len()
            &&& quantizer.centroid(sub, code) == chunk.subrange(code * width, code * width + width)
            &&& quantizer.centroid(sub, code).len() == width
        }),
{
    let from = quantizer.chunk_offsets@[sub] as int;
    let upto = quantizer.chunk_offsets@[sub + 1] as int;
    let k = quantizer.ksub as int;
    let d = quantizer.d as int;
    let width = upto - from;
    assert(quantizer.chunk_offsets@[sub] <= quantizer.chunk_offsets@[sub + 1]);
    assert(quantizer.chunk_offsets@[sub + 1] <= quantizer.chunk_offsets@[quantizer.m as int]);
    assert(0 <= from * k && from * k + code * width + width <= upto * k && upto * k <= d * k && 0
        <= code * width && upto * k - from * k == width * k && code * width + width <= width * k)
        by (nonlinear_arith)
        requires
            0 <= from <= upto <= d,
            width == upto - from,
            0 <= code < k,
    ;
    let chunk = quantizer.centroids@.subrange(from * k, upto * k);
    assert(quantizer.centroid(sub, code) =~= chunk.subrange(code * width, code * width + width));
}

/// A vector that is coded and decoded: each chunk of it is the nearest of the centroids of the
/// chunk.
pub proof fn decoded_chunks_are_the_nearest<F: Fn(&Vec<u32>, &Vec<u32>, usize) -> Vec<u32>>(
    quantizer: ProductQuantizer,
    f: F,
    x: Seq<u32>,
    code: Seq<u8>,
    decoded: Seq<u32>,
    sub: int,
)
    requires
        quantizer.well_formed(),
        quantizer.is_trained(),
        quantizer.is_code(f, x, code),
        0 <= sub < quantizer.m,
        decoded.subrange(quantizer.start(sub), quantizer.start(sub + 1)) == quantizer.centroid(
            sub,
            pq::code_at(code, quantizer.nbits, sub),
        ),
    ensures
        exists|at: int|
            {
                let from = quantizer.chunk_offsets@[sub] as int;
                let upto = quantizer.chunk_offsets@[sub + 1] as int;
                let chunk = quantizer.centroids@.subrange(
                    from * quantizer.ksub,
                    upto * quantizer.ksub,
                );
                &&& 0 <= at < quantizer.ksub
                &&& #[trigger] clustering_law::names_least(
                    values_of_chunk(quantizer, f, x, sub),
                    at,
                )
                &&& decoded.subrange(from, upto) == chunk.subrange(
                    at * (upto - from),
                    at * (upto - from) + (upto - from),
                )
            },
{
    let at = pq::code_at(code, quantizer.nbits, sub);
    every_chunk_is_coded_by_its_nearest(quantizer, f, x, code, sub);
    assert(0 <= at < quantizer.ksub);
    centroids_have_their_own_places(quantizer, sub, at);
    assert(clustering_law::names_least(values_of_chunk(quantizer, f, x, sub), at));
}

/// A distance that is looked up is the sum, chunk by chunk, of the values of the centroids that the
/// code names, as they were when the table was made.
pub proof fn table_distances_add_every_chunk<F: Fn(&Vec<u32>, &Vec<u32>, usize) -> Vec<u32>>(
    quantizer: ProductQuantizer,
    math: Arithmetic,
    f: F,
    query: Seq<u32>,
    table: Seq<u32>,
    codes: Seq<u8>,
)
    requires
        quantizer.well_formed(),
        codes.len() >= quantizer.spec_code_size(),
        table.len() == quantizer.m * quantizer.ksub,
        forall|sub: int|
            0 <= sub < quantizer.m ==> table.subrange(
                sub * quantizer.ksub,
                sub * quantizer.ksub + quantizer.ksub,
            ) == #[trigger] quantizer.chunk_values(f, query, sub),
    ensures
        cluster_assign::sum_of(math, quantizer.entries(table, codes)) == Seq::new(
            quantizer.m as nat,
            |sub: int|
                values_of_chunk(quantizer, f, query, sub)[if quantizer.nbits == 8 {
                    codes[sub] as int
                } else if sub % 2 == 0 {
                    codes[sub / 2] as int % 16
                } else {
                    codes[sub / 2] as int / 16
                }],
        ).fold_left(0u32, |a: u32, b: u32| (math.sum)(a, b)),
{
    let entries = quantizer.entries(table, codes);
    let each = Seq::new(
        quantizer.m as nat,
        |sub: int|
            values_of_chunk(quantizer, f, query, sub)[if quantizer.nbits == 8 {
                codes[sub] as int
            } else if sub % 2 == 0 {
                codes[sub / 2] as int % 16
            } else {
                codes[sub / 2] as int / 16
            }],
    );
    assert forall|sub: int| 0 <= sub < quantizer.m implies entries[sub] == each[sub] by {
        let k = quantizer.ksub as int;
        let at = pq::code_at(codes, quantizer.nbits, sub);
        assert(0 <= at < k);
        ivf_lists::lemma_row_bounds(quantizer.m as nat, k as nat, sub);
        let part = table.subrange(sub * k, sub * k + k);
        assert(part == quantizer.chunk_values(f, query, sub));
        assert(part[at] == table[sub * k + at]);
        assert(quantizer.chunk_values(f, query, sub) == values_of_chunk(quantizer, f, query, sub));
    }
    assert(entries =~= each);
    centroid_law::lemma_sum_is_fold(math, each);
}

/// `part` holds of each row what stands from `start` up to `stop`, row by row.
pub open spec fn are_columns<T>(
    part: Seq<T>,
    data: Seq<T>,
    d: int,
    start: int,
    stop: int,
    n: int,
) -> bool {
    let width = stop - start;
    &&& part.len() == n * width
    &&& forall|i: int|
        #![trigger part.subrange(i * width, i * width + width)]
        0 <= i < n ==> part.subrange(i * width, i * width + width) == data.subrange(
            i * d + start,
            i * d + stop,
        )
}

/// The columns of a chunk: of each row the part that the chunk covers, row by row.
pub proof fn columns_are_parts_of_rows<T>(data: Seq<T>, d: int, start: int, stop: int, n: int)
    requires
        0 <= start <= stop <= d,
        0 <= n,
        data.len() >= n * d,
    ensures
        are_columns(pq::columns(data, d, start, stop, n), data, d, start, stop, n),
    decreases n,
{
    let part = pq::columns(data, d, start, stop, n);
    let width = stop - start;
    if n > 0 {
        assert((n - 1) * d <= n * d && (n - 1) * d + d == n * d && (n - 1) * width + width == n
            * width && 0 <= (n - 1) * d) by (nonlinear_arith)
            requires
                n >= 1,
                d >= 0,
                width >= 0,
        ;
        columns_are_parts_of_rows(data, d, start, stop, n - 1);
        let before = pq::columns(data, d, start, stop, n - 1);
        assert forall|i: int|
            #![trigger part.subrange(i * width, i * width + width)]
            0 <= i < n implies part.subrange(i * width, i * width + width) == data.subrange(
            i * d + start,
            i * d + stop,
        ) by {
            if i < n - 1 {
                assert(0 <= i * width && i * width + width <= (n - 1) * width) by (nonlinear_arith)
                    requires
                        0 <= i < n - 1,
                        width >= 0,
                ;
                assert(before.subrange(i * width, i * width + width) == data.subrange(
                    i * d + start,
                    i * d + stop,
                ));
                assert(part.subrange(i * width, i * width + width) =~= before.subrange(
                    i * width,
                    i * width + width,
                ));
            } else {
                assert(part.subrange(i * width, i * width + width) =~= data.subrange(
                    i * d + start,
                    i * d + stop,
                ));
            }
        }
    } else {
        assert(n * width == 0) by (nonlinear_arith)
            requires
                n == 0,
        ;
    }
}

/// `rows` are the columns of the chunk, and the centroids were trained with them.
pub open spec fn is_trained_alone(
    quantizer: ProductQuantizer,
    math: Arithmetic,
    config: KMeansConfig,
    data: Seq<u32>,
    n: usize,
    hot_start: bool,
    sub: int,
    centroids: Seq<u32>,
    rows: Seq<u32>,
) -> bool {
    let from = quantizer.chunk_offsets@[sub] as int;
    let upto = quantizer.chunk_offsets@[sub + 1] as int;
    &&& are_columns(rows, data, quantizer.d as int, from, upto, n as int)
    &&& training::trained(
        math,
        config,
        rows,
        n,
        (upto - from) as usize,
        quantizer.ksub,
        if hot_start && quantizer.centroids@.len() > 0 {
            Some(quantizer.centroids@.subrange(from * quantizer.ksub, upto * quantizer.ksub))
        } else {
            None
        },
        centroids,
    )
}

/// Each chunk of a product quantizer is trained by itself: with the columns that it covers, with as
/// many centroids as a code can name, and from its own centroids on where they are kept.
pub proof fn chunks_are_trained_by_themselves(
    quantizer: ProductQuantizer,
    math: Arithmetic,
    config: KMeansConfig,
    data: Seq<u32>,
    n: usize,
    hot_start: bool,
    sub: int,
    centroids: Seq<u32>,
)
    requires
        quantizer.well_formed(),
        data.len() >= n * quantizer.d,
        0 <= sub < quantizer.m,
        quantizer.chunk_trained(math, config, data, n, hot_start, sub, centroids),
    ensures
        exists|rows: Seq<u32>| #[trigger]
            is_trained_alone(quantizer, math, config, data, n, hot_start, sub, centroids, rows),
{
    let from = quantizer.chunk_offsets@[sub] as int;
    let upto = quantizer.chunk_offsets@[sub + 1] as int;
    assert(quantizer.chunk_offsets@[sub] <= quantizer.chunk_offsets@[sub + 1]);
    assert(quantizer.chunk_offsets@[sub + 1] <= quantizer.chunk_offsets@[quantizer.m as int]);
    let rows = pq::columns(data, quantizer.d as int, from, upto, n as int);
    columns_are_parts_of_rows(data, quantizer.d as int, from, upto, n as int);
    assert(rows == quantizer.chunk_rows(data, n, sub));
    assert(is_trained_alone(
        quantizer,
        math,
        config,
        data,
        n,
        hot_start,
        sub,
        centroids,
        rows,
    ));
}

/// The widest chunk: none is wider, and one is as wide.
pub proof fn the_widest_chunk_is_a_chunk(offsets: Seq<usize>, upto: int)
    requires
        0 <= upto < offsets.len(),
        forall|i: int, j: int|
            0 <= i <= j < offsets.len() ==> #[trigger] offsets[i] <= #[trigger] offsets[j],
    ensures
        forall|i: int|
            #![trigger offsets[i]]
            0 <= i < upto ==> offsets[i + 1] - offsets[i] <= pq::widest(offsets, upto),
        upto > 0 ==> exists|i: int|
            #![trigger offsets[i]]
            0 <= i < upto && offsets[i + 1] - offsets[i] == pq::widest(offsets, upto),
    decreases upto,
{
    if upto > 0 {
        the_widest_chunk_is_a_chunk(offsets, upto - 1);
        assert(offsets[upto - 1] <= offsets[upto]);
        let last = upto - 1;
        if pq::widest(offsets, upto) == offsets[last + 1] - offsets[last] {
            assert(0 <= last < upto && offsets[last + 1] - offsets[last] == pq::widest(
                offsets,
                upto,
            ));
        } else {
            let i = choose|i: int|
                #![trigger offsets[i]]
                0 <= i < upto - 1 && offsets[i + 1] - offsets[i] == pq::widest(offsets, upto - 1);
            assert(0 <= i < upto && offsets[i + 1] - offsets[i] == pq::widest(offsets, upto));
        }
    }
}

/// What the two halves of the bytes of a row add, chunk by chunk.
pub proof fn sums_of_codes_add_every_chunk(
    table: Seq<u8>,
    codes: Seq<u8>,
    start: int,
    pairs: int,
)
    requires
        0 <= pairs,
    ensures
        pq_scan::code_sum(table, codes, start, pairs) == Seq::new(
            (2 * pairs) as nat,
            |sub: int|
                table[sub * 16 + (if sub % 2 == 0 {
                    codes[start + sub / 2] as int % 16
                } else {
                    codes[start + sub / 2] as int / 16
                })] as int,
        ).fold_left(0int, |a: int, b: int| a + b),
    decreases pairs,
{
    let each = |upto: int|
        Seq::new(
            (2 * upto) as nat,
            |sub: int|
                table[sub * 16 + (if sub % 2 == 0 {
                    codes[start + sub / 2] as int % 16
                } else {
                    codes[start + sub / 2] as int / 16
                })] as int,
        );
    reveal(Seq::fold_left);
    if pairs > 0 {
        sums_of_codes_add_every_chunk(table, codes, start, pairs - 1);
        let now = each(pairs);
        let short = now.drop_last();
        assert(short.drop_last() =~= each(pairs - 1));
        reveal_with_fuel(Seq::fold_left, 3);
        let low: int = 2 * pairs - 2;
        let high: int = 2 * pairs - 1;
        assert(low % 2 == 0 && low / 2 == pairs - 1 && high % 2 == 1 && high / 2 == pairs - 1);
    }
}

/// The global bounds are bounds of some dimension, or zeros where there is none.
pub proof fn global_bounds_are_bounds(mins: Seq<u32>, maxs: Seq<u32>)
    requires
        float_bits::all_finite(mins),
        float_bits::all_finite(maxs),
        mins.len() == maxs.len(),
    ensures
        mins.len() > 0 ==> mins.contains(sq::global_bounds(mins, maxs).0),
        mins.len() > 0 ==> maxs.contains(sq::global_bounds(mins, maxs).1),
        mins.len() > 0 ==> forall|i: int|
            0 <= i < mins.len() ==> !float_bits::lt(
                #[trigger] mins[i],
                sq::global_bounds(mins, maxs).0,
            ),
        mins.len() > 0 ==> forall|i: int|
            0 <= i < maxs.len() ==> !float_bits::lt(
                sq::global_bounds(mins, maxs).1,
                #[trigger] maxs[i],
            ),
        mins.len() == 0 ==> sq::global_bounds(mins, maxs) == (0u32, 0u32),
{
    lemma_least_is_one(mins);
    lemma_greatest_is_one(maxs);
}

proof fn lemma_least_is_one(values: Seq<u32>)
    requires
        float_bits::all_finite(values),
    ensures
        values.len() > 0 ==> values.contains(sq::least(values)) && float_bits::is_finite(
            sq::least(values),
        ),
        values.len() == 0 ==> sq::least(values) == float_bits::INFINITY_BITS,
        forall|i: int| 0 <= i < values.len() ==> !float_bits::lt(#[trigger] values[i], sq::least(values)),
    decreases values.len(),
{
    if values.len() > 0 {
        let front = values.drop_last();
        assert forall|i: int| 0 <= i < front.len() implies float_bits::is_finite(
            #[trigger] front[i],
        ) by {
            assert(front[i] == values[i]);
        }
        lemma_least_is_one(front);
        let last = values.len() - 1;
        assert(float_bits::is_finite(values[last]));
        if sq::least(values) == values[last] {
            assert(values.contains(values[last]));
        } else {
            let i = choose|i: int| 0 <= i < front.len() && front[i] == sq::least(front);
            assert(values[i] == sq::least(values));
        }
        assert forall|i: int| 0 <= i < values.len() implies !float_bits::lt(
            #[trigger] values[i],
            sq::least(values),
        ) by {
            if i < last {
                assert(front[i] == values[i]);
            }
        }
    }
}

proof fn lemma_greatest_is_one(values: Seq<u32>)
    requires
        float_bits::all_finite(values),
    ensures
        values.len() > 0 ==> values.contains(sq::greatest(values)) && float_bits::is_finite(
            sq::greatest(values),
        ),
        values.len() == 0 ==> !float_bits::is_finite(sq::greatest(values)),
        !float_bits::is_nan(sq::greatest(values)),
        forall|i: int|
            0 <= i < values.len() ==> !float_bits::lt(sq::greatest(values), #[trigger] values[i]),
    decreases values.len(),
{
    if values.len() > 0 {
        let front = values.drop_last();
        assert forall|i: int| 0 <= i < front.len() implies float_bits::is_finite(
            #[trigger] front[i],
        ) by {
            assert(front[i] == values[i]);
        }
        lemma_greatest_is_one(front);
        let last = values.len() - 1;
        assert(float_bits::is_finite(values[last]));
        if sq::greatest(values) == values[last] {
            assert(values.contains(values[last]));
        } else {
            let i = choose|i: int| 0 <= i < front.len() && front[i] == sq::greatest(front);
            assert(values[i] == sq::greatest(values));
        }
        assert forall|i: int| 0 <= i < values.len() implies !float_bits::lt(
            sq::greatest(values),
            #[trigger] values[i],
        ) by {
            if i < last {
                assert(front[i] == values[i]);
            }
        }
    }
}

proof fn lemma_grows(offsets: Seq<usize>, i: int, j: int)
    requires
        pq::grows(offsets),
        0 <= i < j < offsets.len(),
    ensures
        offsets[i] < offsets[j],
    decreases j,
{
    assert(pq::rises(offsets, j));
    if i < j - 1 {
        lemma_grows(offsets, i, j - 1);
    }
}

/// A plan of chunks is accepted if and only if there are values and codes of four or eight bits,
/// and the chunks, none of them empty, go from the first value to the last.
pub proof fn plans_are_accepted_where_chunks_cover_all(d: usize, nbits: usize, offsets: Seq<usize>)
    ensures
        pq::plan_fault(d, nbits, offsets) is None <==> {
            &&& d > 0
            &&& nbits == 4 || nbits == 8
            &&& offsets.len() >= 2
            &&& offsets[0] == 0
            &&& offsets[offsets.len() - 1] == d
            &&& forall|i: int, j: int|
                0 <= i < j < offsets.len() ==> #[trigger] offsets[i] < #[trigger] offsets[j]
        },
{
    if pq::grows(offsets) {
        assert forall|i: int, j: int| 0 <= i < j < offsets.len() implies #[trigger] offsets[i]
            < #[trigger] offsets[j] by {
            lemma_grows(offsets, i, j);
        }
    } else {
        let i = choose|i: int| 0 < i < offsets.len() && !#[trigger] pq::rises(offsets, i);
        assert(!(offsets[i - 1] < offsets[i]));
    }
}

/// There is a centroid for every code.
pub proof fn every_code_has_a_centroid(nbits: usize)
    requires
        nbits == 4 || nbits == 8,
    ensures
        pq::centroids_per_chunk(nbits) == pow2(nbits as nat),
{
    vstd::arithmetic::power2::lemma2_to64();
}

/// Bounds are accepted if and only if there are two for each dimension and all of them stand for
/// numbers; where they are refused for a place, it is the first with a bound that does not.
pub proof fn bounds_are_accepted_where_they_are_numbers(b: SqBounds, d: usize, e: IndexError)
    ensures
        b.valid(d) <==> b.mins.len() == d && b.maxs.len() == d && forall|i: int|
            #![trigger b.mins[i]]
            #![trigger b.maxs[i]]
            0 <= i < d ==> float_law::exponent(b.mins[i]) < 255 && float_law::exponent(b.maxs[i])
                < 255,
        sq::bounds_refused(b, d, e) ==> !b.valid(d),
        b.mins.len() == d && b.maxs.len() == d && sq::bounds_refused(b, d, e) ==> (e matches
            IndexError::SqBoundsNotFinite { place } && place < d && (float_law::exponent(
            b.mins[place as int],
        ) == 255 || float_law::exponent(b.maxs[place as int]) == 255) && forall|i: int|
            #![trigger b.mins[i]]
            #![trigger b.maxs[i]]
            0 <= i < place ==> float_law::exponent(b.mins[i]) < 255 && float_law::exponent(
                b.maxs[i],
            ) < 255),
{
    assert forall|bits: u32| #[trigger] float_bits::is_finite(bits) <==> float_law::exponent(bits)
        < 255 by {
        float_law::some_patterns_are_no_numbers(bits, bits);
    }
    if b.mins.len() == d && b.maxs.len() == d {
        if forall|i: int|
            #![trigger b.mins[i]]
            #![trigger b.maxs[i]]
            0 <= i < d ==> float_law::exponent(b.mins[i]) < 255 && float_law::exponent(b.maxs[i])
                < 255 {
            assert forall|i: int| 0 <= i < d implies float_bits::is_finite(#[trigger] b.mins[i]) by {}
            assert forall|i: int| 0 <= i < d implies float_bits::is_finite(#[trigger] b.maxs[i]) by {}
        }
        if sq::bounds_refused(b, d, e) {
            let place = e->SqBoundsNotFinite_place;
            assert forall|i: int|
                #![trigger b.mins[i]]
                #![trigger b.maxs[i]]
                0 <= i < place implies float_law::exponent(b.mins[i]) < 255 && float_law::exponent(
                b.maxs[i],
            ) < 255 by {
                assert(float_bits::is_finite(b.mins.take(place as int)[i]));
                assert(float_bits::is_finite(b.maxs.take(place as int)[i]));
            }
        }
    }
}

} // verus!

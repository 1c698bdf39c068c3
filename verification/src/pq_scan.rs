//! Distances to many coded vectors at once, by a table whose entries are bytes.
use vstd::prelude::*;

verus! {

/// So many rows are summed up in full precision first.
pub const FLAT_NUM: usize = 200;

/// What the pair of numbers in one byte adds: an entry of each of its two rows of sixteen.
pub open spec fn pair_sum(table: Seq<u8>, byte: u8, pair: int) -> int {
    table[pair * 32 + byte as int % 16] + table[pair * 32 + 16 + byte as int / 16]
}

/// What the first bytes of a row add up to.
pub open spec fn code_sum(table: Seq<u8>, codes: Seq<u8>, start: int, pairs: int) -> int
    decreases pairs,
{
    if pairs <= 0 {
        0
    } else {
        code_sum(table, codes, start, pairs - 1) + pair_sum(
            table,
            codes[start + pairs - 1],
            pairs - 1,
        )
    }
}

/// The number of rows that are summed up in full precision.
pub fn full_precision_rows(count: usize) -> (r: usize)
    ensures
        count <= FLAT_NUM ==> r == count,
        count > FLAT_NUM ==> r == FLAT_NUM,
{
    if count <= FLAT_NUM {
        count
    } else {
        FLAT_NUM
    }
}

proof fn lemma_code_sum_bound(table: Seq<u8>, codes: Seq<u8>, start: int, pairs: int)
    requires
        0 <= pairs,
    ensures
        0 <= code_sum(table, codes, start, pairs) <= 510 * pairs,
    decreases pairs,
{
    if pairs > 0 {
        lemma_code_sum_bound(table, codes, start, pairs - 1);
    }
}

/// Adds up the table entries of the rows from `from` on, each row of `pairs` bytes.
pub fn sum_codes(table: &[u8], codes: &[u8], from: usize, count: usize, pairs: usize) -> (r: Vec<
    u16,
>)
    requires
        from <= count,
        pairs <= 128,
        table@.len() >= pairs * 32,
        codes@.len() == count * pairs,
    ensures
        r@.len() == count - from,
        forall|i: int|
            0 <= i < r@.len() ==> #[trigger] r@[i] == code_sum(
                table@,
                codes@,
                (from + i) * pairs,
                pairs as int,
            ),
{
    let mut sums: Vec<u16> = Vec::new();
    for i in from..count
        invariant
            pairs <= 128,
            table@.len() >= pairs * 32,
            codes@.len() == count * pairs,
            sums@.len() == i - from,
            forall|k: int|
                0 <= k < sums@.len() ==> #[trigger] sums@[k] == code_sum(
                    table@,
                    codes@,
                    (from + k) * pairs,
                    pairs as int,
                ),
    {
        proof {
            assert(i * pairs + pairs <= count * pairs) by (nonlinear_arith)
                requires
                    i + 1 <= count,
                    pairs >= 0,
            ;
            assert(0 <= i * pairs) by (nonlinear_arith)
                requires
                    pairs >= 0,
            ;
            assert(codes@.len() == codes.len());
        }
        let start: usize = i * pairs;
        let mut sum: u16 = 0;
        for pair in 0..pairs
            invariant
                pairs <= 128,
                table@.len() >= pairs * 32,
                start + pairs <= codes@.len() <= usize::MAX,
                sum == code_sum(table@, codes@, start as int, pair as int),
        {
            proof {
                lemma_code_sum_bound(table@, codes@, start as int, pair as int);
            }
            let byte: usize = codes[start + pair] as usize;
            let low: u16 = table[pair * 32 + byte % 16] as u16;
            let high: u16 = table[pair * 32 + 16 + byte / 16] as u16;
            sum = sum + (low + high);
        }
        sums.push(sum);
    }
    sums
}

} // verus!
